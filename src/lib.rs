//! A single-user note store: an ordered list of notes, identifier
//! assignment, and the JSON text that the store is kept in on disk.
pub mod format;
pub mod note;
pub mod store;

pub use note::{Note, Notes};
pub use store::{NoteDB, NoteError};
