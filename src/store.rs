//! The note store: the notes of one user, bound to the path of their file.
use vstd::prelude::*;

use crate::format::{dec, decode, empty_text, encode, lemma_round_trip, push_dec};
use crate::note::{Note, NoteView, Notes};

verus! {

/// Why a store operation was refused.
#[derive(Debug, PartialEq, Eq, Structural)]
pub enum NoteError {
    /// A positional delete named no note.
    IndexOutOfRange,
    /// The last note's id is the largest `usize`, so no next id exists.
    IdsExhausted,
}

/// The id that the next added note gets: the last note's id plus one,
/// or zero for an empty store.
pub open spec fn next_id_of(ns: Seq<NoteView>) -> int {
    if ns.len() == 0 {
        0
    } else {
        ns.last().0 + 1
    }
}

/// The notes after adding `text`.
pub open spec fn after_add(ns: Seq<NoteView>, text: Seq<char>) -> Seq<NoteView> {
    if next_id_of(ns) <= usize::MAX {
        ns.push((next_id_of(ns) as usize, text))
    } else {
        ns
    }
}

/// The notes after adding each of `texts` in turn.
pub open spec fn after_adds(ns: Seq<NoteView>, texts: Seq<Seq<char>>) -> Seq<NoteView>
    decreases texts.len(),
{
    if texts.len() == 0 {
        ns
    } else {
        after_add(after_adds(ns, texts.drop_last()), texts.last())
    }
}

/// The notes after a positional delete of `k` (1-based).
pub open spec fn after_delete(ns: Seq<NoteView>, k: int) -> Seq<NoteView> {
    if 1 <= k <= ns.len() {
        ns.remove(k - 1)
    } else {
        ns
    }
}

/// One line of a listing: `id: description`.
pub open spec fn list_line(n: NoteView) -> Seq<char> {
    dec(n.0 as nat) + ": "@ + n.1
}

/// The notes that a store holds after loading `contents`: those the text
/// encodes, or none where the text is empty or not in the store's form.
pub open spec fn loaded(contents: Seq<char>) -> Seq<NoteView> {
    match decode(contents) {
        Some(ns) => ns,
        None => Seq::empty(),
    }
}

/// The note store of one user.
pub struct NoteDB {
    pub path: String,
    pub notes: Notes,
}

impl NoteDB {
    /// An empty store bound to `path`.
    pub fn new(path: String) -> (r: NoteDB)
        ensures
            r.path@ == path@,
            r.notes@ == Seq::<NoteView>::empty(),
    {
        NoteDB { path, notes: Notes::new() }
    }

    /// The id that the next added note gets.
    pub fn return_next_id(&self) -> (r: usize)
        requires
            next_id_of(self.notes@) <= usize::MAX,
        ensures
            r == next_id_of(self.notes@),
    {
        let n = self.notes.data.len();
        if n == 0 {
            0
        } else {
            self.notes.data[n - 1].id + 1
        }
    }

    /// Appends a note holding `text`; returns its id.
    pub fn add_note(&mut self, text: String) -> (r: Result<usize, NoteError>)
        ensures
            final(self).path@ == old(self).path@,
            final(self).notes@ == after_add(old(self).notes@, text@),
            next_id_of(old(self).notes@) <= usize::MAX ==> r == Ok::<usize, NoteError>(
                next_id_of(old(self).notes@) as usize),
            next_id_of(old(self).notes@) > usize::MAX ==> r == Err::<usize, NoteError>(
                NoteError::IdsExhausted),
    {
        let n = self.notes.data.len();
        if n > 0 && self.notes.data[n - 1].id == usize::MAX {
            return Err(NoteError::IdsExhausted);
        }
        let id = self.return_next_id();
        let ghost pre = self.notes@;
        self.notes.data.push(Note { id, description: text });
        assert(self.notes@ =~= pre.push((id, text@)));
        Ok(id)
    }

    /// Removes the note at 1-based position `k`; the sequence is left as it
    /// was when `k` names no note.  The position is not an id: once a note
    /// has been deleted, or an id reused, the two no longer agree.
    pub fn delete_at(&mut self, k: usize) -> (r: Result<Note, NoteError>)
        ensures
            final(self).path@ == old(self).path@,
            final(self).notes@ == after_delete(old(self).notes@, k as int),
            1 <= k <= old(self).notes@.len() ==> r is Ok && r->Ok_0@ == old(self).notes@[k - 1],
            !(1 <= k <= old(self).notes@.len()) ==> r == Err::<Note, NoteError>(
                NoteError::IndexOutOfRange),
    {
        if k == 0 || k > self.notes.data.len() {
            return Err(NoteError::IndexOutOfRange);
        }
        let ghost pre = self.notes@;
        let n = self.notes.data.remove(k - 1);
        assert(self.notes@ =~= pre.remove(k - 1));
        Ok(n)
    }

    /// One `id: description` line per note, in order; empty for an empty
    /// store, which a caller reports as such.
    pub fn list(&self) -> (r: Vec<String>)
        ensures
            r@.len() == self.notes@.len(),
            forall|i: int| 0 <= i < r@.len() ==> #[trigger] r@[i]@ == list_line(self.notes@[i]),
    {
        let mut r: Vec<String> = Vec::new();
        let mut i: usize = 0;
        while i < self.notes.data.len()
            invariant
                i <= self.notes@.len(),
                r@.len() == i,
                forall|j: int| 0 <= j < i ==> #[trigger] r@[j]@ == list_line(self.notes@[j]),
            decreases self.notes.data.len() - i,
        {
            let n = &self.notes.data[i];
            let mut line = String::new();
            push_dec(&mut line, n.id);
            line.append(": ");
            line.append(n.description.as_str());
            assert(line@ =~= list_line(self.notes@[i as int]));
            r.push(line);
            i = i + 1;
        }
        r
    }

    /// The text that the store's file is overwritten with.
    pub fn save(&self) -> (r: String)
        ensures
            r@ == encode(self.notes@),
    {
        self.notes.to_json()
    }

    /// For the file's `contents` before they are read: the text to write
    /// first where the file is empty, else nothing.
    pub fn check(&self, contents: &str) -> (r: Option<String>)
        ensures
            contents@.len() == 0 ==> r is Some && r->Some_0@ == encode(self.notes@),
            contents@.len() != 0 ==> r is None,
    {
        if contents.unicode_len() == 0 {
            Some(self.save())
        } else {
            None
        }
    }

    /// Replaces the notes by those that the file's `contents` hold.  Where
    /// the file is empty or not in the store's form the store starts empty,
    /// and the text to write back, the empty store's, is returned.
    pub fn load_notes(&mut self, contents: &str) -> (r: Option<String>)
        ensures
            final(self).path@ == old(self).path@,
            final(self).notes@ == loaded(contents@),
            (contents@.len() == 0 || decode(contents@) is None) ==> r is Some && r->Some_0@
                == empty_text(),
            (contents@.len() != 0 && decode(contents@) is Some) ==> r is None,
    {
        self.notes = Notes::new();
        if let Some(t) = self.check(contents) {
            return Some(t);
        }
        match Notes::from_json(contents) {
            Some(ns) => {
                self.notes = ns;
                None
            },
            None => Some(self.save()),
        }
    }

    /// Drops every note; returns the empty store's text, to be written at once.
    pub fn reset(&mut self) -> (r: String)
        ensures
            final(self).path@ == old(self).path@,
            final(self).notes@ == Seq::<NoteView>::empty(),
            r@ == empty_text(),
    {
        self.notes = Notes::new();
        self.save()
    }
}

/// Adding notes to an empty store, with no deletes between, gives the
/// i-th added note the id `i - 1`: ids start at zero and rise by one.
pub proof fn lemma_add_ids_dense(texts: Seq<Seq<char>>)
    requires
        texts.len() <= usize::MAX,
    ensures
        after_adds(Seq::empty(), texts).len() == texts.len(),
        forall|i: int|
            0 <= i < texts.len() ==> #[trigger] after_adds(Seq::empty(), texts)[i] == (
            i as usize,
            texts[i],
        ),
    decreases texts.len(),
{
    if texts.len() > 0 {
        let pre = texts.drop_last();
        lemma_add_ids_dense(pre);
        let ns = after_adds(Seq::empty(), pre);
        if ns.len() > 0 {
            assert(ns.last() == ((ns.len() - 1) as usize, pre[ns.len() - 1]));
        }
        assert(next_id_of(ns) == pre.len());
    }
}

/// Saving a store and loading what was saved gives back the same notes.
pub proof fn lemma_load_after_save(ns: Seq<NoteView>)
    ensures
        loaded(encode(ns)) == ns,
{
    lemma_round_trip(ns);
}

} // verus!
