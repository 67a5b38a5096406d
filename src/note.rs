use vstd::prelude::*;

use crate::format::{
    chars_of, closes_at, decode, encode, items_text, lemma_items_push, lemma_literals, note_text,
    parse_desc_field_at, parse_id_field_at, parse_items_at, parse_nat, parse_note_at, parse_string, push_dec, push_escaped, skip_ws, token,
};

verus! {

/// What a note is to the contracts: its id and its text.
pub type NoteView = (usize, Seq<char>);

/// One user-visible note.
pub struct Note {
    pub id: usize,
    pub description: String,
}

impl View for Note {
    type V = NoteView;

    open spec fn view(&self) -> NoteView {
        (self.id, self.description@)
    }
}

/// The ordered notes of a store; insertion order is display order.
pub struct Notes {
    pub data: Vec<Note>,
}

impl View for Notes {
    type V = Seq<NoteView>;

    open spec fn view(&self) -> Seq<NoteView> {
        self.data@.map_values(|n: Note| n@)
    }
}

impl Note {
    /// The note's text in the store: `{"id": 3, "description": "..."}`.
    pub fn to_json(&self) -> (r: String)
        ensures
            r@ == note_text(self@),
    {
        let mut s = String::new();
        s.append("{");
        s.append("\"id\"");
        s.append(": ");
        push_dec(&mut s, self.id);
        s.append(", ");
        s.append("\"description\"");
        s.append(": ");
        s.append("\"");
        push_escaped(&mut s, self.description.as_str());
        s.append("\"");
        s.append("}");
        assert(s@ =~= note_text(self@));
        s
    }
}

impl Notes {
    /// An empty collection.
    pub fn new() -> (r: Notes)
        ensures
            r@ == Seq::<NoteView>::empty(),
    {
        let r = Notes { data: Vec::new() };
        assert(r@ =~= Seq::<NoteView>::empty());
        r
    }

    /// The whole store's text: `{"data": [...]}`.
    pub fn to_json(&self) -> (r: String)
        ensures
            r@ == encode(self@),
    {
        let mut s = String::new();
        s.append("{\"data\": [");
        proof {
            reveal_strlit("{\"data\": [");
            reveal_strlit(", ");
            reveal_strlit("]}");
            lemma_literals();
        }
        let ghost start = s@;
        let mut i: usize = 0;
        assert(self@.take(0) =~= Seq::<NoteView>::empty());
        while i < self.data.len()
            invariant
                i <= self.data@.len(),
                start == "{\"data\": ["@,
                s@ == start + items_text(self@.take(i as int)),
            decreases self.data.len() - i,
        {
            if i > 0 {
                s.append(", ");
            }
            let t = self.data[i].to_json();
            s.append(t.as_str());
            proof {
                let pre = self@.take(i as int);
                assert(self@.take(i as int + 1) =~= pre.push(self@[i as int]));
                if i == 0 {
                    assert(pre.push(self@[0]) =~= seq![self@[0]]);
                    assert(items_text(seq![self@[0]]) == note_text(self@[0]));
                    assert(items_text(pre) == Seq::<char>::empty());
                } else {
                    lemma_items_push(pre, self@[i as int]);
                }
                assert(s@ =~= start + items_text(self@.take(i as int + 1)));
            }
            i = i + 1;
        }
        s.append("]}");
        assert(self@.take(i as int) =~= self@);
        assert(s@ =~= encode(self@));
        s
    }
}

/// Reads `"id": <number>` at `i`.
fn parse_id_field(v: &Vec<char>, i: usize) -> (r: Option<(usize, usize)>)
    requires
        i <= v@.len(),
    ensures
        match r {
            Some((id, e)) => parse_id_field_at(v@, i as int) == Some((id, e as int)) && e
                <= v@.len(),
            None => parse_id_field_at(v@, i as int) is None,
        },
{
    let b = match token(v, i, "\"id\"") {
        Some(p) => p,
        None => return None,
    };
    let c = match token(v, b, ":") {
        Some(p) => p,
        None => return None,
    };
    let c1 = skip_ws(v, c);
    parse_nat(v, c1)
}

/// Reads `"description": "<text>"` at `i`.
fn parse_desc_field(v: &Vec<char>, i: usize) -> (r: Option<(String, usize)>)
    requires
        i <= v@.len(),
    ensures
        match r {
            Some((d, e)) => parse_desc_field_at(v@, i as int) == Some((d@, e as int)) && e
                <= v@.len(),
            None => parse_desc_field_at(v@, i as int) is None,
        },
{
    let f = match token(v, i, "\"description\"") {
        Some(p) => p,
        None => return None,
    };
    let g = match token(v, f, ":") {
        Some(p) => p,
        None => return None,
    };
    let h = match token(v, g, "\"") {
        Some(p) => p,
        None => return None,
    };
    parse_string(v, h)
}

/// Reads one note at `i`.
fn parse_note(v: &Vec<char>, i: usize) -> (r: Option<(Note, usize)>)
    requires
        i <= v@.len(),
    ensures
        match r {
            Some((n, e)) => parse_note_at(v@, i as int) == Some((n@, e as int)) && e <= v@.len(),
            None => parse_note_at(v@, i as int) is None,
        },
{
    let a = match token(v, i, "{") {
        Some(p) => p,
        None => return None,
    };
    let (id, description, k) = match parse_id_field(v, a) {
        Some((id, d)) => {
            let e = match token(v, d, ",") {
                Some(p) => p,
                None => return None,
            };
            match parse_desc_field(v, e) {
                Some((description, k)) => (id, description, k),
                None => return None,
            }
        },
        None => {
            let (description, d) = match parse_desc_field(v, a) {
                Some(p) => p,
                None => return None,
            };
            let e = match token(v, d, ",") {
                Some(p) => p,
                None => return None,
            };
            match parse_id_field(v, e) {
                Some((id, k)) => (id, description, k),
                None => return None,
            }
        },
    };
    let l = match token(v, k, "}") {
        Some(p) => p,
        None => return None,
    };
    Some((Note { id, description }, l))
}

/// Whether `]`, `}` and then only whitespace follow from `i` on.
fn closes(v: &Vec<char>, i: usize) -> (r: bool)
    requires
        i <= v@.len(),
    ensures
        r == closes_at(v@, i as int),
{
    let a = match token(v, i, "]") {
        Some(p) => p,
        None => return false,
    };
    let b = match token(v, a, "}") {
        Some(p) => p,
        None => return false,
    };
    skip_ws(v, b) == v.len()
}

pub open spec fn prepend_notes(o: Seq<NoteView>, r: Option<Seq<NoteView>>) -> Option<Seq<NoteView>> {
    match r {
        Some(rest) => Some(o + rest),
        None => None,
    }
}

impl Notes {
    /// Reads a store's text; `None` where it is not in the store's form.
    pub fn from_json(text: &str) -> (r: Option<Notes>)
        ensures
            match r {
                Some(ns) => decode(text@) == Some(ns@),
                None => decode(text@) is None,
            },
    {
        let v = chars_of(text);
        let a = match token(&v, 0, "{") {
            Some(p) => p,
            None => return None,
        };
        let b = match token(&v, a, "\"data\"") {
            Some(p) => p,
            None => return None,
        };
        let c = match token(&v, b, ":") {
            Some(p) => p,
            None => return None,
        };
        let d = match token(&v, c, "[") {
            Some(p) => p,
            None => return None,
        };
        if closes(&v, d) {
            return Some(Notes::new());
        }
        let mut out = Notes::new();
        let mut pos: usize = d;
        assert(prepend_notes(out@, parse_items_at(v@, d as int)) =~= parse_items_at(v@, d as int)) by {
            if let Some(rest) = parse_items_at(v@, d as int) {
                assert(out@ + rest =~= rest);
            }
        }
        loop
            invariant
                pos <= v@.len(),
                v@ == text@,
                decode(text@) == prepend_notes(out@, parse_items_at(v@, pos as int)),
            decreases v.len() - pos,
        {
            let (n, j) = match parse_note(&v, pos) {
                Some(p) => p,
                None => return None,
            };
            let ghost nv = n@;
            let ghost pre = out@;
            match token(&v, j, ",") {
                Some(k) => {
                    if k <= pos {
                        return None;
                    }
                    out.data.push(n);
                    proof {
                        assert(out@ =~= pre.push(nv));
                        if let Some(rest) = parse_items_at(v@, k as int) {
                            assert(pre + (seq![nv] + rest) =~= pre.push(nv) + rest);
                        }
                    }
                    pos = k;
                },
                None => {
                    if closes(&v, j) {
                        out.data.push(n);
                        proof {
                            assert(out@ =~= pre.push(nv));
                            assert(pre + seq![nv] =~= pre.push(nv));
                        }
                        return Some(out);
                    }
                    return None;
                },
            }
        }
    }
}

} // verus!
