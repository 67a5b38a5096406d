//! The store's text form: `{"data": [{"id": 0, "description": "..."}, ...]}`.
use vstd::prelude::*;

use crate::note::NoteView;

verus! {

pub open spec fn is_digit(c: char) -> bool {
    '0' <= c && c <= '9'
}

pub open spec fn digit_char(d: int) -> char {
    ((d + 48) as u32) as char
}

pub open spec fn digit_value(c: char) -> int {
    (c as u32) - 48
}

/// Decimal digits of `n`, most significant first, no leading zeros.
pub open spec fn dec(n: nat) -> Seq<char>
    decreases n,
{
    if n < 10 {
        seq![digit_char(n as int)]
    } else {
        dec(n / 10).push(digit_char((n % 10) as int))
    }
}

/// The number that a run of digits denotes.
pub open spec fn digits_value(s: Seq<char>) -> nat
    decreases s.len(),
{
    if s.len() == 0 {
        0
    } else {
        (digits_value(s.drop_last()) * 10 + digit_value(s.last())) as nat
    }
}

pub open spec fn hex_char(d: int) -> char {
    if d < 10 {
        ((d + 48) as u32) as char
    } else {
        ((d + 87) as u32) as char
    }
}

pub open spec fn is_hex(c: char) -> bool {
    ('0' <= c && c <= '9') || ('a' <= c && c <= 'f')
}

pub open spec fn hex_value(c: char) -> int {
    if c <= '9' {
        (c as u32) - 48
    } else {
        (c as u32) - 87
    }
}

/// JSON string escape of one character: quote and backslash are
/// backslashed, control characters become `\u00XX`.
pub open spec fn escape_char(c: char) -> Seq<char> {
    if c == '"' {
        seq!['\\', '"']
    } else if c == '\\' {
        seq!['\\', '\\']
    } else if (c as u32) < 32 {
        seq!['\\', 'u', '0', '0', hex_char((c as u32) as int / 16), hex_char((c as u32) as int % 16)]
    } else {
        seq![c]
    }
}

pub open spec fn escape(s: Seq<char>) -> Seq<char>
    decreases s.len(),
{
    if s.len() == 0 {
        Seq::empty()
    } else {
        escape_char(s[0]) + escape(s.drop_first())
    }
}

/// Text of one note: `{"id": 3, "description": "..."}`.
pub open spec fn note_text(n: NoteView) -> Seq<char> {
    "{"@ + ("\"id\""@ + (": "@ + (dec(n.0 as nat) + (", "@ + ("\"description\""@ + (": "@ + (
    "\""@ + (escape(n.1) + ("\""@ + "}"@)))))))))
}

/// Texts of the notes, joined by `, `.
pub open spec fn items_text(ns: Seq<NoteView>) -> Seq<char>
    decreases ns.len(),
{
    if ns.len() == 0 {
        Seq::empty()
    } else if ns.len() == 1 {
        note_text(ns[0])
    } else {
        note_text(ns[0]) + (", "@ + items_text(ns.drop_first()))
    }
}

/// The text that a store holding `ns` is saved as.
pub open spec fn encode(ns: Seq<NoteView>) -> Seq<char> {
    "{"@ + ("\"data\""@ + (": "@ + ("["@ + (items_text(ns) + ("]"@ + "}"@)))))
}

/// The canonical text of an empty store: `{"data": []}`.
pub open spec fn empty_text() -> Seq<char> {
    encode(Seq::empty())
}

/// `v` holds `lit` from position `i` on.
pub open spec fn has_at(v: Seq<char>, i: int, lit: Seq<char>) -> bool {
    0 <= i && i + lit.len() <= v.len() && v.subrange(i, i + lit.len()) == lit
}

pub open spec fn is_ws(c: char) -> bool {
    c == ' ' || c == '\t' || c == '\n' || c == '\r'
}

/// End of the run of JSON whitespace that starts at `i`.
pub open spec fn ws_end(v: Seq<char>, i: int) -> int
    decreases v.len() - i,
{
    if 0 <= i < v.len() && is_ws(v[i]) {
        ws_end(v, i + 1)
    } else {
        i
    }
}

/// Reads the token `t` after optional whitespace at `i`: the position
/// after it.
pub open spec fn token_at(v: Seq<char>, i: int, t: Seq<char>) -> Option<int> {
    if has_at(v, ws_end(v, i), t) {
        Some(ws_end(v, i) + t.len())
    } else {
        None
    }
}

/// End of the run of digits that starts at `i`.
pub open spec fn digit_run_end(v: Seq<char>, i: int) -> int
    decreases v.len() - i,
{
    if 0 <= i < v.len() && is_digit(v[i]) {
        digit_run_end(v, i + 1)
    } else {
        i
    }
}

/// Reads a number at `i`: its value and the position after it.
pub open spec fn parse_nat_at(v: Seq<char>, i: int) -> Option<(usize, int)> {
    let e = digit_run_end(v, i);
    let n = digits_value(v.subrange(i, e));
    if e == i || n > usize::MAX {
        None
    } else {
        Some((n as usize, e))
    }
}

pub open spec fn cons_char(c: char, r: Option<(Seq<char>, int)>) -> Option<(Seq<char>, int)> {
    match r {
        Some((d, e)) => Some((seq![c] + d, e)),
        None => None,
    }
}

/// The character that a backslash followed by `e` stands for.
pub open spec fn named_escape(e: char) -> Option<char> {
    if e == '"' || e == '\\' || e == '/' {
        Some(e)
    } else if e == 'n' {
        Some('\n')
    } else if e == 't' {
        Some('\t')
    } else if e == 'r' {
        Some('\r')
    } else if e == 'b' {
        Some('\u{8}')
    } else if e == 'f' {
        Some('\u{c}')
    } else {
        None
    }
}

/// Reads the body of a string at `i` up to and including its closing
/// quote: the characters it denotes and the position after the quote.
pub open spec fn unescape_at(v: Seq<char>, i: int) -> Option<(Seq<char>, int)>
    decreases v.len() - i,
{
    if i < 0 || i >= v.len() {
        None
    } else if v[i] == '"' {
        Some((Seq::empty(), i + 1))
    } else if v[i] == '\\' {
        if i + 1 < v.len() && named_escape(v[i + 1]) is Some {
            cons_char(named_escape(v[i + 1])->0, unescape_at(v, i + 2))
        } else if i + 5 < v.len() && v[i + 1] == 'u' && v[i + 2] == '0' && v[i + 3] == '0'
            && is_hex(v[i + 4]) && is_hex(v[i + 5]) {
            cons_char(
                ((hex_value(v[i + 4]) * 16 + hex_value(v[i + 5])) as u8) as char,
                unescape_at(v, i + 6),
            )
        } else {
            None
        }
    } else if (v[i] as u32) < 32 {
        None
    } else {
        cons_char(v[i], unescape_at(v, i + 1))
    }
}

/// Reads `"id": <number>` at `i`: the id and the position after it.
pub open spec fn parse_id_field_at(v: Seq<char>, i: int) -> Option<(usize, int)> {
    match token_at(v, i, "\"id\""@) {
        None => None,
        Some(b) => match token_at(v, b, ":"@) {
            None => None,
            Some(c) => parse_nat_at(v, ws_end(v, c)),
        },
    }
}

/// Reads `"description": "<text>"` at `i`: the text and the position
/// after it.
pub open spec fn parse_desc_field_at(v: Seq<char>, i: int) -> Option<(Seq<char>, int)> {
    match token_at(v, i, "\"description\""@) {
        None => None,
        Some(f) => match token_at(v, f, ":"@) {
            None => None,
            Some(g) => match token_at(v, g, "\""@) {
                None => None,
                Some(h) => unescape_at(v, h),
            },
        },
    }
}

/// Reads one note at `i`: the note and the position after it. Its two
/// fields may come in either order.
pub open spec fn parse_note_at(v: Seq<char>, i: int) -> Option<(NoteView, int)> {
    match token_at(v, i, "{"@) {
        None => None,
        Some(a) => match parse_id_field_at(v, a) {
            Some((id, d)) => match token_at(v, d, ","@) {
                None => None,
                Some(e) => match parse_desc_field_at(v, e) {
                    None => None,
                    Some((text, k)) => match token_at(v, k, "}"@) {
                        None => None,
                        Some(l) => Some(((id, text), l)),
                    },
                },
            },
            None => match parse_desc_field_at(v, a) {
                None => None,
                Some((text, d)) => match token_at(v, d, ","@) {
                    None => None,
                    Some(e) => match parse_id_field_at(v, e) {
                        None => None,
                        Some((id, k)) => match token_at(v, k, "}"@) {
                            None => None,
                            Some(l) => Some(((id, text), l)),
                        },
                    },
                },
            },
        },
    }
}

/// `]`, `}` and then nothing but whitespace, from `i` on.
pub open spec fn closes_at(v: Seq<char>, i: int) -> bool {
    match token_at(v, i, "]"@) {
        None => false,
        Some(a) => match token_at(v, a, "}"@) {
            None => false,
            Some(b) => ws_end(v, b) == v.len(),
        },
    }
}

/// Reads the notes from `i` to the end of the text.
pub open spec fn parse_items_at(v: Seq<char>, i: int) -> Option<Seq<NoteView>>
    decreases v.len() - i,
{
    match parse_note_at(v, i) {
        None => None,
        Some((n, j)) => match token_at(v, j, ","@) {
            Some(k) => if k <= i {
                None
            } else {
                match parse_items_at(v, k) {
                    Some(rest) => Some(seq![n] + rest),
                    None => None,
                }
            },
            None => if closes_at(v, j) {
                Some(seq![n])
            } else {
                None
            },
        },
    }
}

/// The notes that a stored text holds, or `None` where the text is not
/// in the store's form. Whitespace may stand between any two tokens.
pub open spec fn decode(v: Seq<char>) -> Option<Seq<NoteView>> {
    match token_at(v, 0, "{"@) {
        None => None,
        Some(a) => match token_at(v, a, "\"data\""@) {
            None => None,
            Some(b) => match token_at(v, b, ":"@) {
                None => None,
                Some(c) => match token_at(v, c, "["@) {
                    None => None,
                    Some(d) => if closes_at(v, d) {
                        Some(Seq::empty())
                    } else {
                        parse_items_at(v, d)
                    },
                },
            },
        },
    }
}


proof fn lemma_split(v: Seq<char>, i: int, a: Seq<char>, b: Seq<char>)
    requires
        has_at(v, i, a + b),
    ensures
        has_at(v, i, a),
        has_at(v, i + a.len(), b),
{
    let w = v.subrange(i, i + a.len() + b.len());
    assert(w == a + b);
    assert forall|k: int| 0 <= k < a.len() implies v.subrange(i, i + a.len())[k] == a[k] by {
        assert(w[k] == (a + b)[k]);
    }
    assert(v.subrange(i, i + a.len()) =~= a);
    assert forall|k: int| 0 <= k < b.len() implies v.subrange(i + a.len(), i + a.len()
        + b.len())[k] == b[k] by {
        assert(w[a.len() + k] == (a + b)[a.len() + k]);
    }
    assert(v.subrange(i + a.len(), i + a.len() + b.len()) =~= b);
}

proof fn lemma_has_at_index(v: Seq<char>, i: int, a: Seq<char>, k: int)
    requires
        has_at(v, i, a),
        0 <= k < a.len(),
    ensures
        v[i + k] == a[k],
{
    assert(v.subrange(i, i + a.len())[k] == a[k]);
}

proof fn lemma_digit_char(d: int)
    requires
        0 <= d < 10,
    ensures
        is_digit(digit_char(d)),
        digit_value(digit_char(d)) == d,
{
}

proof fn lemma_dec(n: nat)
    ensures
        dec(n).len() >= 1,
        forall|j: int| 0 <= j < dec(n).len() ==> is_digit(#[trigger] dec(n)[j]),
        digits_value(dec(n)) == n,
    decreases n,
{
    if n < 10 {
        lemma_digit_char(n as int);
        assert(dec(n).drop_last() =~= Seq::<char>::empty());
        assert(digits_value(Seq::<char>::empty()) == 0);
    } else {
        lemma_dec(n / 10);
        lemma_digit_char((n % 10) as int);
        assert(dec(n).drop_last() =~= dec(n / 10));
        assert(dec(n).last() == digit_char((n % 10) as int));
        assert(n == (n / 10) * 10 + n % 10);
    }
}

proof fn lemma_run_end(v: Seq<char>, i: int, e: int)
    requires
        0 <= i <= e <= v.len(),
        forall|j: int| i <= j < e ==> is_digit(#[trigger] v[j]),
        e == v.len() || !is_digit(v[e]),
    ensures
        digit_run_end(v, i) == e,
    decreases e - i,
{
    if i < e {
        lemma_run_end(v, i + 1, e);
    }
}

proof fn lemma_parse_nat(v: Seq<char>, i: int, n: usize)
    requires
        has_at(v, i, dec(n as nat)),
        i + dec(n as nat).len() == v.len() || !is_digit(v[i + dec(n as nat).len()]),
    ensures
        parse_nat_at(v, i) == Some((n, i + dec(n as nat).len())),
{
    let e = i + dec(n as nat).len();
    lemma_dec(n as nat);
    assert forall|j: int| i <= j < e implies is_digit(#[trigger] v[j]) by {
        lemma_has_at_index(v, i, dec(n as nat), j - i);
    }
    lemma_run_end(v, i, e);
}

proof fn lemma_hex_char(d: int)
    requires
        0 <= d < 16,
    ensures
        is_hex(hex_char(d)),
        hex_value(hex_char(d)) == d,
{
}

proof fn lemma_small_char(c: char)
    requires
        (c as u32) < 32,
    ensures
        (((c as u32) as u8) as char) == c,
{
}

proof fn lemma_unescape(v: Seq<char>, i: int, d: Seq<char>)
    requires
        has_at(v, i, escape(d) + seq!['"']),
    ensures
        unescape_at(v, i) == Some((d, i + escape(d).len() + 1)),
    decreases d.len(),
{
    if d.len() == 0 {
        lemma_has_at_index(v, i, escape(d) + seq!['"'], 0);
    } else {
        let c = d[0];
        let rest = d.drop_first();
        let m = escape_char(c).len();
        assert(escape(d) + seq!['"'] =~= escape_char(c) + (escape(rest) + seq!['"']));
        lemma_split(v, i, escape_char(c), escape(rest) + seq!['"']);
        lemma_unescape(v, i + m, rest);
        assert(seq![c] + rest =~= d);
        let ec = escape_char(c);
        lemma_has_at_index(v, i, ec, 0);
        assert(escape(d) == ec + escape(rest));
        if c == '"' || c == '\\' {
            lemma_has_at_index(v, i, ec, 1);
            assert(v[i] == '\\' && v[i + 1] == c);
            assert(unescape_at(v, i) == cons_char(c, unescape_at(v, i + 2)));
        } else if (c as u32) < 32 {
            lemma_has_at_index(v, i, ec, 1);
            lemma_has_at_index(v, i, ec, 2);
            lemma_has_at_index(v, i, ec, 3);
            lemma_has_at_index(v, i, ec, 4);
            lemma_has_at_index(v, i, ec, 5);
            lemma_hex_char((c as u32) as int / 16);
            lemma_hex_char((c as u32) as int % 16);
            let x = (c as u32) as int;
            assert(x == (x / 16) * 16 + x % 16);
            assert(hex_value(v[i + 4]) * 16 + hex_value(v[i + 5]) == x);
            lemma_small_char(c);
            assert((x as u8) == ((c as u32) as u8));
            assert(unescape_at(v, i) == cons_char(c, unescape_at(v, i + 6)));
        } else {
            assert(v[i] == c);
            assert(unescape_at(v, i) == cons_char(c, unescape_at(v, i + 1)));
        }
    }
}

pub(crate) proof fn lemma_literals()
    ensures
        "{"@ == seq!['{'],
        "}"@ == seq!['}'],
        "["@ == seq!['['],
        "]"@ == seq![']'],
        ":"@ == seq![':'],
        ","@ == seq![','],
        " "@ == seq![' '],
        "\""@ == seq!['"'],
        ": "@ == seq![':', ' '],
        ", "@ == seq![',', ' '],
        "\"id\""@ == seq!['"', 'i', 'd', '"'],
        "\"data\""@ == seq!['"', 'd', 'a', 't', 'a', '"'],
        "\"description\""@.len() == 13,
        "\"description\""@[0] == '"',
{
    reveal_strlit("{");
    reveal_strlit("}");
    reveal_strlit("[");
    reveal_strlit("]");
    reveal_strlit(":");
    reveal_strlit(",");
    reveal_strlit(" ");
    reveal_strlit("\"");
    reveal_strlit(": ");
    reveal_strlit(", ");
    reveal_strlit("\"id\"");
    reveal_strlit("\"data\"");
    reveal_strlit("\"description\"");
}

/// Reading token `t` after `s` spaces (none or one) at `p`.
proof fn lemma_token(v: Seq<char>, p: int, s: int, t: Seq<char>, x: Seq<char>)
    requires
        0 <= s <= 1,
        s == 1 ==> has_at(v, p, seq![' ']),
        has_at(v, p + s, t + x),
        t.len() > 0,
        !is_ws(t[0]),
    ensures
        token_at(v, p, t) == Some(p + s + t.len()),
        has_at(v, p + s + t.len(), x),
{
    lemma_split(v, p + s, t, x);
    lemma_has_at_index(v, p + s, t, 0);
    if s == 1 {
        lemma_has_at_index(v, p, seq![' '], 0);
        assert(ws_end(v, p + 1) == p + 1);
    }
}

proof fn lemma_note(v: Seq<char>, i: int, s: int, n: NoteView)
    requires
        0 <= s <= 1,
        s == 1 ==> has_at(v, i, seq![' ']),
        has_at(v, i + s, note_text(n)),
    ensures
        parse_note_at(v, i) == Some((n, i + s + note_text(n).len())),
        note_text(n).len() > 0,
        note_text(n)[0] == '{',
{
    lemma_literals();
    let dn = dec(n.0 as nat);
    let e = escape(n.1);
    let r8 = e + (seq!['"'] + seq!['}']);
    let r7 = seq!['"'] + r8;
    let r6 = seq![':', ' '] + r7;
    let r5 = "\"description\""@ + r6;
    let r4 = seq![',', ' '] + r5;
    let r3 = dn + r4;
    let r2 = seq![':', ' '] + r3;
    let r1 = seq!['"', 'i', 'd', '"'] + r2;
    assert(note_text(n) == seq!['{'] + r1);
    lemma_token(v, i, s, seq!['{'], r1);
    let a = i + s + 1;
    lemma_token(v, a, 0, seq!['"', 'i', 'd', '"'], r2);
    let b = a + 4;
    assert(r2 =~= seq![':'] + (seq![' '] + r3));
    lemma_token(v, b, 0, seq![':'], seq![' '] + r3);
    let c = b + 1;
    lemma_split(v, c, seq![' '], r3);
    lemma_has_at_index(v, c, seq![' '], 0);
    lemma_dec(n.0 as nat);
    lemma_split(v, c + 1, dn, r4);
    lemma_has_at_index(v, c + 1, dn, 0);
    assert(ws_end(v, c + 1) == c + 1);
    assert(ws_end(v, c) == c + 1);
    let d = c + 1 + dn.len();
    lemma_has_at_index(v, d, r4, 0);
    lemma_parse_nat(v, c + 1, n.0);
    assert(r4 =~= seq![','] + (seq![' '] + r5));
    lemma_token(v, d, 0, seq![','], seq![' '] + r5);
    let e1 = d + 1;
    lemma_split(v, e1, seq![' '], r5);
    lemma_token(v, e1, 1, "\"description\""@, r6);
    let f = e1 + 14;
    assert(r6 =~= seq![':'] + (seq![' '] + r7));
    lemma_token(v, f, 0, seq![':'], seq![' '] + r7);
    let g = f + 1;
    lemma_split(v, g, seq![' '], r7);
    lemma_token(v, g, 1, seq!['"'], r8);
    let h = g + 2;
    assert(r8 =~= (e + seq!['"']) + seq!['}']);
    lemma_split(v, h, e + seq!['"'], seq!['}']);
    lemma_unescape(v, h, n.1);
    let k = h + e.len() + 1;
    assert(seq!['}'] + Seq::<char>::empty() =~= seq!['}']);
    lemma_token(v, k, 0, seq!['}'], Seq::<char>::empty());
}

proof fn lemma_last_item(v: Seq<char>, i: int, s: int, n: NoteView)
    requires
        0 <= s <= 1,
        s == 1 ==> has_at(v, i, seq![' ']),
        has_at(v, i + s, note_text(n) + (seq![']'] + seq!['}'])),
        i + s + note_text(n).len() + 2 == v.len(),
    ensures
        parse_items_at(v, i) == Some(seq![n]),
{
    let nt = note_text(n);
    let tail = seq![']'] + seq!['}'];
    let j = i + s + nt.len();
    lemma_split(v, i + s, nt, tail);
    lemma_note(v, i, s, n);
    lemma_has_at_index(v, j, tail, 0);
    assert(ws_end(v, j) == j);
    lemma_literals();
    if has_at(v, j, ","@) {
        lemma_has_at_index(v, j, ","@, 0);
    }
    assert(token_at(v, j, ","@) is None);
    lemma_closes(v, j);
}

#[verifier::rlimit(20)]
proof fn lemma_items(v: Seq<char>, i: int, s: int, ns: Seq<NoteView>)
    requires
        ns.len() >= 1,
        0 <= s <= 1,
        s == 1 ==> has_at(v, i, seq![' ']),
        has_at(v, i + s, items_text(ns) + (seq![']'] + seq!['}'])),
        i + s + items_text(ns).len() + 2 == v.len(),
    ensures
        parse_items_at(v, i) == Some(ns),
    decreases ns.len(),
{
    if ns.len() == 1 {
        assert(items_text(ns) == note_text(ns[0]));
        lemma_last_item(v, i, s, ns[0]);
        assert(seq![ns[0]] =~= ns);
    } else {
        lemma_literals();
        let nt = note_text(ns[0]);
        let tail = seq![']'] + seq!['}'];
        let j = i + s + nt.len();
        let rest = ns.drop_first();
        let y = items_text(rest) + tail;
        assert(items_text(ns) + tail =~= nt + (seq![','] + (seq![' '] + y)));
        lemma_split(v, i + s, nt, seq![','] + (seq![' '] + y));
        lemma_note(v, i, s, ns[0]);
        lemma_token(v, j, 0, seq![','], seq![' '] + y);
        lemma_split(v, j + 1, seq![' '], y);
        lemma_items(v, j + 1, 1, rest);
        assert(seq![ns[0]] + rest =~= ns);
    }
}

proof fn lemma_header(v: Seq<char>, x: Seq<char>)
    requires
        has_at(
            v,
            0,
            seq!['{'] + (seq!['"', 'd', 'a', 't', 'a', '"'] + (seq![':'] + (seq![' '] + (seq!['[']
                + x)))),
        ),
    ensures
        token_at(v, 0, "{"@) == Some(1int),
        token_at(v, 1, "\"data\""@) == Some(7int),
        token_at(v, 7, ":"@) == Some(8int),
        token_at(v, 8, "["@) == Some(10int),
        has_at(v, 10, x),
{
    lemma_literals();
    let r3 = seq!['['] + x;
    let r2 = seq![':'] + (seq![' '] + r3);
    let r1 = seq!['"', 'd', 'a', 't', 'a', '"'] + r2;
    lemma_token(v, 0, 0, seq!['{'], r1);
    lemma_token(v, 1, 0, seq!['"', 'd', 'a', 't', 'a', '"'], r2);
    lemma_token(v, 7, 0, seq![':'], seq![' '] + r3);
    lemma_split(v, 8, seq![' '], r3);
    lemma_token(v, 8, 1, seq!['['], x);
}

proof fn lemma_closes(v: Seq<char>, d: int)
    requires
        has_at(v, d, seq![']'] + seq!['}']),
        d + 2 == v.len(),
    ensures
        closes_at(v, d),
{
    lemma_literals();
    lemma_token(v, d, 0, seq![']'], seq!['}']);
    assert(seq!['}'] + Seq::<char>::empty() =~= seq!['}']);
    lemma_token(v, d + 1, 0, seq!['}'], Seq::<char>::empty());
}

proof fn lemma_not_closed(v: Seq<char>, d: int)
    requires
        0 <= d < v.len(),
        v[d] == '{',
    ensures
        !closes_at(v, d),
{
    lemma_literals();
    assert(ws_end(v, d) == d);
    if has_at(v, d, "]"@) {
        lemma_has_at_index(v, d, "]"@, 0);
    }
}

proof fn lemma_items_start(ns: Seq<NoteView>)
    requires
        ns.len() >= 1,
    ensures
        items_text(ns).len() > 0,
        items_text(ns)[0] == '{',
{
    lemma_literals();
    let nt = note_text(ns[0]);
    assert(nt.len() > 0 && nt[0] == '{');
    if ns.len() > 1 {
        assert(items_text(ns) == nt + (", "@ + items_text(ns.drop_first())));
        assert(items_text(ns)[0] == nt[0]);
    }
}

/// Decoding the text that a store is saved as gives back exactly the
/// notes it was saved from, field for field.
pub proof fn lemma_round_trip(ns: Seq<NoteView>)
    ensures
        decode(encode(ns)) == Some(ns),
        encode(ns).len() > 0,
{
    lemma_literals();
    let v = encode(ns);
    let it = items_text(ns);
    let tail = seq![']'] + seq!['}'];
    assert(v =~= seq!['{'] + (seq!['"', 'd', 'a', 't', 'a', '"'] + (seq![':'] + (seq![' ']
        + (seq!['['] + (it + tail))))));
    assert(v.subrange(0, v.len() as int) =~= v);
    lemma_header(v, it + tail);
    if ns.len() == 0 {
        assert(it + tail =~= tail);
        lemma_closes(v, 10);
        assert(ns =~= Seq::<NoteView>::empty());
    } else {
        lemma_items_start(ns);
        lemma_has_at_index(v, 10, it + tail, 0);
        lemma_not_closed(v, 10);
        lemma_items(v, 10, 0, ns);
    }
}

proof fn lemma_escape_push(s: Seq<char>, c: char)
    ensures
        escape(s.push(c)) == escape(s) + escape_char(c),
    decreases s.len(),
{
    if s.len() == 0 {
        assert(s.push(c).drop_first() =~= Seq::<char>::empty());
        assert(s.push(c)[0] == c);
        assert(escape(Seq::<char>::empty()) == Seq::<char>::empty());
        assert(escape(s.push(c)) =~= escape(s) + escape_char(c));
    } else {
        assert(s.push(c).drop_first() =~= s.drop_first().push(c));
        lemma_escape_push(s.drop_first(), c);
        assert(escape(s.push(c)) =~= escape(s) + escape_char(c));
    }
}

pub(crate) proof fn lemma_items_push(ns: Seq<NoteView>, n: NoteView)
    requires
        ns.len() >= 1,
    ensures
        items_text(ns.push(n)) == items_text(ns) + (", "@ + note_text(n)),
    decreases ns.len(),
{
    if ns.len() == 1 {
        assert(ns.push(n).drop_first() =~= seq![n]);
        assert(items_text(seq![n]) == note_text(n));
    } else {
        assert(ns.push(n).drop_first() =~= ns.drop_first().push(n));
        lemma_items_push(ns.drop_first(), n);
        assert(items_text(ns.push(n)) =~= items_text(ns) + (", "@ + note_text(n)));
    }
}

/// Relies on str::chars: the characters of `t`, in order.
#[verifier::external_body]
pub(crate) fn chars_of(t: &str) -> (r: Vec<char>)
    ensures
        r@ == t@,
{
    t.chars().collect()
}

/// Relies on String::push: appends one character.
#[verifier::external_body]
pub(crate) fn push_char(s: &mut String, c: char)
    ensures
        final(s)@ == old(s)@.push(c),
{
    s.push(c)
}

fn digit_of(d: usize) -> (c: char)
    requires
        d < 10,
    ensures
        c == digit_char(d as int),
{
    let b: u8 = d as u8 + 48;
    b as char
}

fn hex_of(d: u32) -> (c: char)
    requires
        d < 16,
    ensures
        c == hex_char(d as int),
{
    if d < 10 {
        (d as u8 + 48) as char
    } else {
        (d as u8 + 87) as char
    }
}

/// Appends the decimal digits of `n`.
pub fn push_dec(s: &mut String, n: usize)
    ensures
        final(s)@ == old(s)@ + dec(n as nat),
    decreases n,
{
    if n >= 10 {
        push_dec(s, n / 10);
    }
    let c = digit_of(n % 10);
    push_char(s, c);
    assert(s@ =~= old(s)@ + dec(n as nat));
}

/// Appends the JSON escape of one character.
pub fn push_escaped_char(s: &mut String, c: char)
    ensures
        final(s)@ == old(s)@ + escape_char(c),
{
    if c == '"' {
        s.append("\\\"");
        proof { reveal_strlit("\\\""); }
    } else if c == '\\' {
        s.append("\\\\");
        proof { reveal_strlit("\\\\"); }
    } else if (c as u32) < 32 {
        s.append("\\u00");
        proof { reveal_strlit("\\u00"); }
        let x = hex_of(c as u32 / 16);
        push_char(s, x);
        let y = hex_of(c as u32 % 16);
        push_char(s, y);
    } else {
        push_char(s, c);
    }
    assert(s@ =~= old(s)@ + escape_char(c));
}

/// Appends the JSON escape of `d`, without quotes.
pub fn push_escaped(s: &mut String, d: &str)
    ensures
        final(s)@ == old(s)@ + escape(d@),
{
    let cs = chars_of(d);
    let ghost start = s@;
    let mut i: usize = 0;
    assert(escape(cs@.take(0)) =~= Seq::<char>::empty()) by {
        assert(cs@.take(0) =~= Seq::<char>::empty());
    }
    while i < cs.len()
        invariant
            i <= cs@.len(),
            cs@ == d@,
            s@ == start + escape(cs@.take(i as int)),
        decreases cs.len() - i,
    {
        push_escaped_char(s, cs[i]);
        proof {
            assert(cs@.take(i as int + 1) =~= cs@.take(i as int).push(cs@[i as int]));
            lemma_escape_push(cs@.take(i as int), cs@[i as int]);
        }
        i = i + 1;
    }
    assert(cs@.take(i as int) =~= cs@);
}

/// Whether `v` holds the characters of `lit` from position `i` on.
pub fn has_lit(v: &Vec<char>, i: usize, lit: &str) -> (r: bool)
    ensures
        r == has_at(v@, i as int, lit@),
{
    let l = chars_of(lit);
    if i > v.len() || l.len() > v.len() - i {
        return false;
    }
    let mut k: usize = 0;
    while k < l.len()
        invariant
            k <= l@.len(),
            l@ == lit@,
            i + l@.len() <= v@.len(),
            forall|j: int| 0 <= j < k ==> v@[i + j] == l@[j],
        decreases l.len() - k,
    {
        assert(i + k < v.len());
        if v[i + k] != l[k] {
            assert(v@.subrange(i as int, i + l@.len())[k as int] != l@[k as int]);
            return false;
        }
        k = k + 1;
    }
    assert(v@.subrange(i as int, i + l@.len()) =~= l@);
    true
}

proof fn lemma_run_facts(v: Seq<char>, i: int)
    requires
        0 <= i <= v.len(),
    ensures
        i <= digit_run_end(v, i) <= v.len(),
        forall|j: int| i <= j < digit_run_end(v, i) ==> is_digit(#[trigger] v[j]),
        digit_run_end(v, i) == v.len() || !is_digit(v[digit_run_end(v, i)]),
    decreases v.len() - i,
{
    if i < v.len() && is_digit(v[i]) {
        lemma_run_facts(v, i + 1);
    }
}

proof fn lemma_value_grows(v: Seq<char>, i: int, j: int, e: int)
    requires
        0 <= i <= j <= e <= v.len(),
        forall|k: int| i <= k < e ==> is_digit(#[trigger] v[k]),
    ensures
        digits_value(v.subrange(i, j)) <= digits_value(v.subrange(i, e)),
    decreases e - j,
{
    if j < e {
        lemma_value_grows(v, i, j, e - 1);
        assert(v.subrange(i, e).drop_last() =~= v.subrange(i, e - 1));
    }
}

/// Reads a number at `i`.
pub fn parse_nat(v: &Vec<char>, i: usize) -> (r: Option<(usize, usize)>)
    requires
        i <= v@.len(),
    ensures
        match r {
            Some((n, e)) => parse_nat_at(v@, i as int) == Some((n, e as int)) && e <= v@.len(),
            None => parse_nat_at(v@, i as int) is None,
        },
{
    proof { lemma_run_facts(v@, i as int); }
    let mut k: usize = i;
    let mut acc: usize = 0;
    assert(v@.subrange(i as int, i as int) =~= Seq::<char>::empty());
    while k < v.len() && '0' <= v[k] && v[k] <= '9'
        invariant
            i <= k <= v@.len(),
            forall|j: int| i <= j < k ==> is_digit(#[trigger] v@[j]),
            i <= digit_run_end(v@, i as int) <= v@.len(),
            forall|j: int| i <= j < digit_run_end(v@, i as int) ==> is_digit(#[trigger] v@[j]),
            digit_run_end(v@, i as int) == v@.len() || !is_digit(v@[digit_run_end(v@, i as int)]),
            acc == digits_value(v@.subrange(i as int, k as int)),
        decreases v.len() - k,
    {
        let d = (v[k] as u32 - 48) as usize;
        assert(v@.subrange(i as int, k + 1).drop_last() =~= v@.subrange(i as int, k as int));
        let ghost e = digit_run_end(v@, i as int);
        match acc.checked_mul(10) {
            None => {
                proof {
                    assert(k < e) by {
                        if e <= k {
                            assert(is_digit(v@[e]));
                        }
                    }
                    lemma_value_grows(v@, i as int, k + 1, e);
                }
                return None;
            },
            Some(m) => match m.checked_add(d) {
                None => {
                    proof {
                        assert(k < e) by {
                            if e <= k {
                                assert(is_digit(v@[e]));
                            }
                        }
                        lemma_value_grows(v@, i as int, k + 1, e);
                    }
                    return None;
                },
                Some(a) => {
                    acc = a;
                },
            },
        }
        k = k + 1;
    }
    proof {
        lemma_run_end(v@, i as int, k as int);
    }
    if k == i {
        None
    } else {
        Some((acc, k))
    }
}

pub open spec fn prepend(o: Seq<char>, r: Option<(Seq<char>, int)>) -> Option<(Seq<char>, int)> {
    match r {
        Some((d, e)) => Some((o + d, e)),
        None => None,
    }
}

proof fn lemma_prepend_cons(o: Seq<char>, c: char, r: Option<(Seq<char>, int)>)
    ensures
        prepend(o, cons_char(c, r)) == prepend(o.push(c), r),
{
    if let Some((d, e)) = r {
        assert(o + (seq![c] + d) =~= o.push(c) + d);
    }
}

fn is_hex_exec(c: char) -> (r: bool)
    ensures
        r == is_hex(c),
{
    ('0' <= c && c <= '9') || ('a' <= c && c <= 'f')
}

fn hex_val(c: char) -> (r: u8)
    requires
        is_hex(c),
    ensures
        r as int == hex_value(c),
        r < 16,
{
    if c <= '9' {
        (c as u32 - 48) as u8
    } else {
        (c as u32 - 87) as u8
    }
}

fn named_escape_of(e: char) -> (r: Option<char>)
    ensures
        r == named_escape(e),
{
    if e == '"' || e == '\\' || e == '/' {
        Some(e)
    } else if e == 'n' {
        Some('\n')
    } else if e == 't' {
        Some('\t')
    } else if e == 'r' {
        Some('\r')
    } else if e == 'b' {
        Some('\u{8}')
    } else if e == 'f' {
        Some('\u{c}')
    } else {
        None
    }
}

/// The position after the whitespace that starts at `i`.
pub fn skip_ws(v: &Vec<char>, i: usize) -> (r: usize)
    requires
        i <= v@.len(),
    ensures
        r as int == ws_end(v@, i as int),
        i <= r <= v@.len(),
{
    let mut k = i;
    while k < v.len() && (v[k] == ' ' || v[k] == '\t' || v[k] == '\n' || v[k] == '\r')
        invariant
            i <= k <= v@.len(),
            ws_end(v@, i as int) == ws_end(v@, k as int),
        decreases v.len() - k,
    {
        k = k + 1;
    }
    k
}

/// Reads the token `t` after optional whitespace at `i`.
pub fn token(v: &Vec<char>, i: usize, t: &str) -> (r: Option<usize>)
    requires
        i <= v@.len(),
    ensures
        match r {
            Some(e) => token_at(v@, i as int, t@) == Some(e as int) && e <= v@.len(),
            None => token_at(v@, i as int, t@) is None,
        },
{
    let j = skip_ws(v, i);
    if has_lit(v, j, t) {
        let l = t.unicode_len();
        assert(j + l <= v.len());
        Some(j + l)
    } else {
        None
    }
}

/// Reads the body of a string at `i`, up to and including its closing quote.
pub fn parse_string(v: &Vec<char>, i: usize) -> (r: Option<(String, usize)>)
    ensures
        match r {
            Some((d, e)) => unescape_at(v@, i as int) == Some((d@, e as int)) && e <= v@.len(),
            None => unescape_at(v@, i as int) is None,
        },
{
    let mut out = String::new();
    let mut k: usize = i;
    assert(prepend(out@, unescape_at(v@, i as int)) =~= unescape_at(v@, i as int)) by {
        if let Some((d, e)) = unescape_at(v@, i as int) {
            assert(out@ + d =~= d);
        }
    }
    loop
        invariant
            i <= k,
            unescape_at(v@, i as int) == prepend(out@, unescape_at(v@, k as int)),
        decreases v.len() - k,
    {
        if k >= v.len() {
            return None;
        }
        let c = v[k];
        if c == '"' {
            assert(out@ + Seq::<char>::empty() =~= out@);
            return Some((out, k + 1));
        } else if c == '\\' {
            let named = if k + 1 < v.len() {
                named_escape_of(v[k + 1])
            } else {
                None
            };
            if let Some(x) = named {
                proof { lemma_prepend_cons(out@, x, unescape_at(v@, k + 2)); }
                push_char(&mut out, x);
                k = k + 2;
            } else if v.len() - k > 5 && v[k + 1] == 'u' && v[k + 2] == '0' && v[k + 3] == '0'
                && is_hex_exec(v[k + 4]) && is_hex_exec(v[k + 5]) {
                let code: u8 = hex_val(v[k + 4]) * 16 + hex_val(v[k + 5]);
                let x = code as char;
                proof { lemma_prepend_cons(out@, x, unescape_at(v@, k + 6)); }
                push_char(&mut out, x);
                k = k + 6;
            } else {
                return None;
            }
        } else if (c as u32) < 32 {
            return None;
        } else {
            proof { lemma_prepend_cons(out@, c, unescape_at(v@, k + 1)); }
            push_char(&mut out, c);
            k = k + 1;
        }
    }
}

} // verus!
