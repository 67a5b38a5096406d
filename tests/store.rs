use rs_notes::{Note, NoteDB, NoteError, Notes};

fn fresh() -> NoteDB {
    NoteDB::new(String::from("/tmp/notes"))
}

fn pairs(db: &NoteDB) -> Vec<(usize, String)> {
    db.notes
        .data
        .iter()
        .map(|n| (n.id, n.description.clone()))
        .collect()
}

#[test]
fn ids_count_up_from_zero() {
    let mut db = fresh();
    for i in 0..10usize {
        assert_eq!(db.add_note(format!("note {}", i)), Ok(i));
    }
    for (i, n) in db.notes.data.iter().enumerate() {
        assert_eq!(n.id, i);
        assert_eq!(n.description, format!("note {}", i));
    }
}

#[test]
fn next_id_of_empty_store_is_zero() {
    let db = fresh();
    assert_eq!(db.return_next_id(), 0);
}

#[test]
fn next_id_follows_last_note() {
    let mut db = fresh();
    db.load_notes("{\"data\": [{\"id\": 7, \"description\": \"x\"}, {\"id\": 3, \"description\": \"y\"}]}");
    assert_eq!(db.return_next_id(), 4);
}

#[test]
fn buy_milk_scenario() {
    let mut db = fresh();
    assert_eq!(db.add_note(String::from("buy milk")), Ok(0));
    assert_eq!(db.add_note(String::from("call mom")), Ok(1));
    let removed = db.delete_at(1).ok().unwrap();
    assert_eq!(removed.id, 0);
    assert_eq!(removed.description, "buy milk");
    assert_eq!(db.list(), vec![String::from("1: call mom")]);
    let saved = db.save();
    assert_eq!(saved, "{\"data\": [{\"id\": 1, \"description\": \"call mom\"}]}");
    let mut again = fresh();
    assert_eq!(again.load_notes(&saved), None);
    assert_eq!(pairs(&again), vec![(1, String::from("call mom"))]);
}

#[test]
fn deleting_the_last_note_reuses_its_id() {
    let mut db = fresh();
    assert_eq!(db.add_note(String::from("a")), Ok(0));
    assert_eq!(db.add_note(String::from("b")), Ok(1));
    let removed = db.delete_at(2).ok().unwrap();
    assert_eq!(removed.description, "b");
    assert_eq!(db.add_note(String::from("c")), Ok(1));
    assert_eq!(pairs(&db), vec![(0, String::from("a")), (1, String::from("c"))]);
}

#[test]
fn delete_is_positional_not_by_id() {
    let mut db = fresh();
    db.add_note(String::from("a")).ok();
    db.add_note(String::from("b")).ok();
    db.add_note(String::from("c")).ok();
    db.delete_at(1).ok();
    // "b" has id 1 but stands first now.
    let removed = db.delete_at(1).ok().unwrap();
    assert_eq!(removed.id, 1);
    assert_eq!(pairs(&db), vec![(2, String::from("c"))]);
}

#[test]
fn delete_out_of_range_leaves_store() {
    let mut db = fresh();
    assert_eq!(db.delete_at(1).err(), Some(NoteError::IndexOutOfRange));
    db.add_note(String::from("a")).ok();
    db.add_note(String::from("b")).ok();
    assert_eq!(db.delete_at(0).err(), Some(NoteError::IndexOutOfRange));
    assert_eq!(db.delete_at(3).err(), Some(NoteError::IndexOutOfRange));
    assert_eq!(db.delete_at(usize::MAX).err(), Some(NoteError::IndexOutOfRange));
    assert_eq!(pairs(&db), vec![(0, String::from("a")), (1, String::from("b"))]);
}

#[test]
fn add_after_largest_id_is_refused() {
    let mut db = fresh();
    let text = format!("{{\"data\": [{{\"id\": {}, \"description\": \"z\"}}]}}", usize::MAX);
    assert_eq!(db.load_notes(&text), None);
    assert_eq!(db.add_note(String::from("more")), Err(NoteError::IdsExhausted));
    assert_eq!(pairs(&db), vec![(usize::MAX, String::from("z"))]);
}

#[test]
fn reset_empties_store_and_gives_canonical_text() {
    let mut db = fresh();
    db.add_note(String::from("a")).ok();
    db.add_note(String::from("b")).ok();
    assert_eq!(db.reset(), "{\"data\": []}");
    assert!(db.notes.data.is_empty());
    assert_eq!(db.save(), "{\"data\": []}");
    assert_eq!(db.path, "/tmp/notes");
}

#[test]
fn invalid_json_loads_as_empty_store() {
    let mut db = fresh();
    db.add_note(String::from("old")).ok();
    assert_eq!(db.load_notes("not json"), Some(String::from("{\"data\": []}")));
    assert!(db.notes.data.is_empty());
}

#[test]
fn truncated_file_loads_as_empty_store() {
    let mut db = fresh();
    let r = db.load_notes("{\"data\": [{\"id\": 0, \"description\": \"a\"");
    assert_eq!(r, Some(String::from("{\"data\": []}")));
    assert!(db.notes.data.is_empty());
}

#[test]
fn empty_file_is_initialised() {
    let mut db = fresh();
    assert_eq!(db.check(""), Some(String::from("{\"data\": []}")));
    assert_eq!(db.check("{\"data\": []}"), None);
    assert_eq!(db.load_notes(""), Some(String::from("{\"data\": []}")));
    assert!(db.notes.data.is_empty());
}

#[test]
fn canonical_empty_text_loads() {
    let mut db = fresh();
    assert_eq!(db.load_notes("{\"data\": []}"), None);
    assert!(db.notes.data.is_empty());
}

#[test]
fn list_of_empty_store_is_empty() {
    let db = fresh();
    assert!(db.list().is_empty());
}

#[test]
fn list_lines() {
    let mut db = fresh();
    db.add_note(String::from("one")).ok();
    db.add_note(String::from("")).ok();
    assert_eq!(db.list(), vec![String::from("0: one"), String::from("1: ")]);
}

#[test]
fn note_text_exact() {
    let n = Note { id: 42, description: String::from("say \"hi\" \\ bye") };
    assert_eq!(n.to_json(), "{\"id\": 42, \"description\": \"say \\\"hi\\\" \\\\ bye\"}");
}

#[test]
fn control_characters_are_escaped() {
    let n = Note { id: 0, description: String::from("a\nb\u{1f}") };
    assert_eq!(n.to_json(), "{\"id\": 0, \"description\": \"a\\u000ab\\u001f\"}");
}

#[test]
fn store_text_exact() {
    let notes = Notes {
        data: vec![
            Note { id: 0, description: String::from("x") },
            Note { id: 10, description: String::from("y") },
        ],
    };
    assert_eq!(
        notes.to_json(),
        "{\"data\": [{\"id\": 0, \"description\": \"x\"}, {\"id\": 10, \"description\": \"y\"}]}"
    );
}

#[test]
fn round_trip_keeps_every_field() {
    let descriptions = ["", "plain", "quote \" and \\ slash", "tab\tline\nend\r", "ünïcödé ✓", "}, {\"id\": 9"];
    let notes = Notes {
        data: descriptions
            .iter()
            .enumerate()
            .map(|(i, d)| Note { id: i * 1000 + 7, description: String::from(*d) })
            .collect(),
    };
    let text = notes.to_json();
    let back = Notes::from_json(&text).unwrap();
    assert_eq!(back.data.len(), notes.data.len());
    for (a, b) in back.data.iter().zip(notes.data.iter()) {
        assert_eq!(a.id, b.id);
        assert_eq!(a.description, b.description);
    }
}

#[test]
fn decode_rejects_malformed_texts() {
    assert!(Notes::from_json("").is_none());
    assert!(Notes::from_json("{}").is_none());
    assert!(Notes::from_json("{\"data\": [}").is_none());
    assert!(Notes::from_json("{\"data\": [{\"id\": x, \"description\": \"a\"}]}").is_none());
    assert!(Notes::from_json("{\"data\": [{\"id\": 1, \"description\": \"a\"}]}x").is_none());
    assert!(Notes::from_json("{\"data\": [{\"id\": 1, \"description\": \"a\"},]}").is_none());
    assert!(Notes::from_json("{\"data\": [{\"id\": 1}]}").is_none());
    assert!(Notes::from_json("{\"data\": [{\"id\": 1, \"description\": \"a\nb\"}]}").is_none());
    assert!(Notes::from_json("{\"data\": [{\"id\": 18446744073709551616, \"description\": \"a\"}]}").is_none());
    assert!(Notes::from_json("{\"data\": [{\"id\": 1, \"description\": \"a\\q\"}]}").is_none());
}

#[test]
fn decode_reads_escapes() {
    let ns = Notes::from_json("{\"data\": [{\"id\": 5, \"description\": \"a\\\"b\\\\c\\u0009d\"}]}").unwrap();
    assert_eq!(ns.data.len(), 1);
    assert_eq!(ns.data[0].id, 5);
    assert_eq!(ns.data[0].description, "a\"b\\c\td");
}

#[test]
fn decode_accepts_compact_text() {
    let ns = Notes::from_json("{\"data\":[{\"id\":0,\"description\":\"x\"},{\"id\":1,\"description\":\"y\"}]}").unwrap();
    assert_eq!(ns.data.len(), 2);
    assert_eq!(ns.data[1].id, 1);
    assert_eq!(ns.data[1].description, "y");
    assert!(Notes::from_json("{\"data\":[]}").unwrap().data.is_empty());
}

#[test]
fn decode_accepts_fields_in_either_order() {
    let ns = Notes::from_json("{\"data\":[{\"description\":\"x\",\"id\":4}]}").unwrap();
    assert_eq!(ns.data.len(), 1);
    assert_eq!(ns.data[0].id, 4);
    assert_eq!(ns.data[0].description, "x");
}

#[test]
fn decode_skips_whitespace_between_tokens() {
    let text = "\n{ \"data\" :\t[\r\n  { \"id\" : 12 , \"description\" : \"a b\" }\n ]\n}\n";
    let ns = Notes::from_json(text).unwrap();
    assert_eq!(ns.data.len(), 1);
    assert_eq!(ns.data[0].id, 12);
    assert_eq!(ns.data[0].description, "a b");
}

#[test]
fn decode_reads_named_escapes() {
    let ns = Notes::from_json("{\"data\": [{\"id\": 0, \"description\": \"1\\n2\\t3\\/4\\r\\b\\f\"}]}").unwrap();
    assert_eq!(ns.data[0].description, "1\n2\t3/4\r\u{8}\u{c}");
}
