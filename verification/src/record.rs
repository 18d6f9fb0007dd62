//! The segment record format.
//!
//! A record is one line of a segment file: a tagged textual value,
//! `{"Set":["key","value"]}` or `{"Del":"key"}`, terminated by `'\n'`.
//! Quotes, backslashes and control characters inside a key or value are
//! escaped, so a literal newline occurs exactly once per record, at its
//! end; every boundary between records is therefore detectable without
//! framing metadata.
//!
//! [`spec_encode`] and [`spec_parse`] define the format; the executable
//! [`encode_record`] and [`parse_record_at`] are proved to implement them,
//! and [`lemma_encode_parses`] shows that a parse recovers exactly what was
//! encoded, with any continuation after it.

use vstd::prelude::*;

verus! {

/// One mutation, the unit of durability in a segment file.
#[derive(Debug, Clone, PartialEq, Eq)]
pub enum Record {
    Put(Vec<char>, Vec<char>),
    Del(Vec<char>),
}

/// The mathematical value of a [`Record`].
pub enum RecordModel {
    Put(Seq<char>, Seq<char>),
    Del(Seq<char>),
}

impl View for Record {
    type V = RecordModel;

    open spec fn view(&self) -> RecordModel {
        match self {
            Record::Put(k, v) => RecordModel::Put(k@, v@),
            Record::Del(k) => RecordModel::Del(k@),
        }
    }
}

// ---------------------------------------------------------------------------
// Escaping of characters inside a quoted string
// ---------------------------------------------------------------------------

/// The lowercase hexadecimal digit for a value below 16.
pub open spec fn hex_digit(v: int) -> char {
    if v == 0 { '0' } else if v == 1 { '1' } else if v == 2 { '2' }
    else if v == 3 { '3' } else if v == 4 { '4' } else if v == 5 { '5' }
    else if v == 6 { '6' } else if v == 7 { '7' } else if v == 8 { '8' }
    else if v == 9 { '9' } else if v == 10 { 'a' } else if v == 11 { 'b' }
    else if v == 12 { 'c' } else if v == 13 { 'd' } else if v == 14 { 'e' }
    else { 'f' }
}

/// The value of a lowercase hexadecimal digit.
pub open spec fn hex_value(c: char) -> Option<int> {
    if c == '0' { Some(0int) } else if c == '1' { Some(1int) } else if c == '2' { Some(2int) }
    else if c == '3' { Some(3int) } else if c == '4' { Some(4int) } else if c == '5' { Some(5int) }
    else if c == '6' { Some(6int) } else if c == '7' { Some(7int) } else if c == '8' { Some(8int) }
    else if c == '9' { Some(9int) } else if c == 'a' { Some(10int) } else if c == 'b' { Some(11int) }
    else if c == 'c' { Some(12int) } else if c == 'd' { Some(13int) } else if c == 'e' { Some(14int) }
    else if c == 'f' { Some(15int) } else { None }
}

/// How one character appears inside a quoted string: itself, a
/// two-character escape, or a `\u00XX` escape for the remaining control
/// characters.
pub open spec fn esc_char(c: char) -> Seq<char> {
    if c == '"' { seq!['\\', '"'] }
    else if c == '\\' { seq!['\\', '\\'] }
    else if c == '\u{8}' { seq!['\\', 'b'] }
    else if c == '\t' { seq!['\\', 't'] }
    else if c == '\n' { seq!['\\', 'n'] }
    else if c == '\u{c}' { seq!['\\', 'f'] }
    else if c == '\r' { seq!['\\', 'r'] }
    else if (c as u32) < 0x20 {
        seq!['\\', 'u', '0', '0', hex_digit((c as u32) as int / 16), hex_digit((c as u32) as int % 16)]
    }
    else { seq![c] }
}

/// The escaped form of a whole string.
pub open spec fn esc(s: Seq<char>) -> Seq<char>
    decreases s.len(),
{
    if s.len() == 0 { Seq::empty() } else { esc_char(s[0]) + esc(s.drop_first()) }
}

// ---------------------------------------------------------------------------
// The record line
// ---------------------------------------------------------------------------

pub open spec fn set_open() -> Seq<char> { seq!['{', '"', 'S', 'e', 't', '"', ':', '[', '"'] }

pub open spec fn set_mid() -> Seq<char> { seq!['"', ',', '"'] }

pub open spec fn set_tail() -> Seq<char> { seq!['"', ']', '}'] }

pub open spec fn del_open() -> Seq<char> { seq!['{', '"', 'D', 'e', 'l', '"', ':', '"'] }

pub open spec fn del_tail() -> Seq<char> { seq!['"', '}'] }

/// The body of a record line: everything but the terminating newline.
pub open spec fn encode_body(r: RecordModel) -> Seq<char> {
    match r {
        RecordModel::Put(k, v) => set_open() + esc(k) + set_mid() + esc(v) + set_tail(),
        RecordModel::Del(k) => del_open() + esc(k) + del_tail(),
    }
}

/// The encoding of one record: its body followed by `'\n'`.
pub open spec fn spec_encode(r: RecordModel) -> Seq<char> {
    encode_body(r) + seq!['\n']
}

// ---------------------------------------------------------------------------
// Parsing
// ---------------------------------------------------------------------------

/// A character that stands for itself inside a quoted string.
pub open spec fn plain_char(c: char) -> bool {
    c != '"' && c != '\\' && (c as u32) >= 0x20
}

/// The character named by a two-character escape, if the escape is one of
/// the canonical ones.
pub open spec fn short_escape(e: char) -> Option<char> {
    if e == '"' { Some('"') } else if e == '\\' { Some('\\') }
    else if e == 'n' { Some('\n') } else if e == 'r' { Some('\r') }
    else if e == 't' { Some('\t') } else if e == 'b' { Some('\u{8}') }
    else if e == 'f' { Some('\u{c}') } else { None }
}

/// The code point named by the tail `XX` of a `\u00XX` escape, accepted
/// only where that escape is the canonical form.
pub open spec fn u_escape_value(h1: char, h2: char) -> Option<int> {
    match (hex_value(h1), hex_value(h2)) {
        (Some(a), Some(b)) => {
            let w = a * 16 + b;
            if w < 0x20 && w != 8 && w != 9 && w != 0xa && w != 0xc && w != 0xd {
                Some(w)
            } else {
                None
            }
        }
        _ => None,
    }
}

/// Parse the escaped content of a quoted string starting at `i`; on
/// success return the string and the index of its closing quote.
pub open spec fn parse_estr(line: Seq<char>, i: int) -> Option<(Seq<char>, int)>
    decreases line.len() - i,
{
    if i < 0 || i >= line.len() {
        None
    } else if line[i] == '"' {
        Some((Seq::empty(), i))
    } else if line[i] == '\\' {
        if i + 2 <= line.len() && line[i + 1] == 'u' {
            if i + 6 <= line.len() && line[i + 2] == '0' && line[i + 3] == '0' {
                match u_escape_value(line[i + 4], line[i + 5]) {
                    Some(w) => match parse_estr(line, i + 6) {
                        Some((s, e)) => Some((seq![((w as u32) as char)] + s, e)),
                        None => None,
                    },
                    None => None,
                }
            } else {
                None
            }
        } else if i + 2 <= line.len() {
            match short_escape(line[i + 1]) {
                Some(c) => match parse_estr(line, i + 2) {
                    Some((s, e)) => Some((seq![c] + s, e)),
                    None => None,
                },
                None => None,
            }
        } else {
            None
        }
    } else if plain_char(line[i]) {
        match parse_estr(line, i + 1) {
            Some((s, e)) => Some((seq![line[i]] + s, e)),
            None => None,
        }
    } else {
        None
    }
}

/// `p` occurs in `d` at position `i`.
pub open spec fn starts_with_at(d: Seq<char>, i: int, p: Seq<char>) -> bool {
    0 <= i && i + p.len() <= d.len() && d.subrange(i, i + p.len()) == p
}

/// Parse one record-line body (no terminating newline).
pub open spec fn parse_body(line: Seq<char>) -> Option<RecordModel> {
    if starts_with_at(line, 0, set_open()) {
        match parse_estr(line, 9) {
            Some((k, e1)) => {
                if starts_with_at(line, e1, set_mid()) {
                    match parse_estr(line, e1 + 3) {
                        Some((v, e2)) => {
                            if e2 + 3 == line.len() && starts_with_at(line, e2, set_tail()) {
                                Some(RecordModel::Put(k, v))
                            } else {
                                None
                            }
                        }
                        None => None,
                    }
                } else {
                    None
                }
            }
            None => None,
        }
    } else if starts_with_at(line, 0, del_open()) {
        match parse_estr(line, 8) {
            Some((k, e1)) => {
                if e1 + 2 == line.len() && starts_with_at(line, e1, del_tail()) {
                    Some(RecordModel::Del(k))
                } else {
                    None
                }
            }
            None => None,
        }
    } else {
        None
    }
}

/// The position of the first newline at or after `i`.
pub open spec fn find_nl(d: Seq<char>, i: int) -> Option<int>
    decreases d.len() - i,
{
    if i < 0 || i >= d.len() {
        None
    } else if d[i] == '\n' {
        Some(i)
    } else {
        find_nl(d, i + 1)
    }
}

/// Parse one record starting at `off`: the line up to the first newline
/// must be a well-formed record body.  On success, the returned offset is
/// the position just after the newline, where the next record would begin.
pub open spec fn spec_parse(d: Seq<char>, off: int) -> Option<(RecordModel, int)> {
    match find_nl(d, off) {
        Some(j) => match parse_body(d.subrange(off, j)) {
            Some(r) => Some((r, j + 1)),
            None => None,
        },
        None => None,
    }
}

// ---------------------------------------------------------------------------
// Properties of parsing
// ---------------------------------------------------------------------------

pub proof fn lemma_find_nl_props(d: Seq<char>, i: int)
    requires
        find_nl(d, i) is Some,
    ensures
        i <= find_nl(d, i)->0 < d.len(),
        d[find_nl(d, i)->0] == '\n',
        forall|k: int| i <= k < find_nl(d, i)->0 ==> d[k] != '\n',
    decreases d.len() - i,
{
    if !(i < 0 || i >= d.len()) && d[i] != '\n' {
        lemma_find_nl_props(d, i + 1);
    }
}

pub proof fn lemma_find_nl_exact(d: Seq<char>, i: int, j: int)
    requires
        0 <= i <= j < d.len(),
        d[j] == '\n',
        forall|k: int| i <= k < j ==> d[k] != '\n',
    ensures
        find_nl(d, i) == Some(j),
    decreases j - i,
{
    if i < j {
        lemma_find_nl_exact(d, i + 1, j);
    }
}

pub proof fn lemma_parse_estr_props(line: Seq<char>, i: int)
    requires
        parse_estr(line, i) is Some,
    ensures
        i <= parse_estr(line, i)->Some_0.1 < line.len(),
        line[parse_estr(line, i)->Some_0.1] == '"',
    decreases line.len() - i,
{
    if !(i < 0 || i >= line.len()) && line[i] != '"' {
        if line[i] == '\\' {
            if i + 2 <= line.len() && line[i + 1] == 'u' {
                lemma_parse_estr_props(line, i + 6);
            } else {
                lemma_parse_estr_props(line, i + 2);
            }
        } else {
            lemma_parse_estr_props(line, i + 1);
        }
    }
}

/// Escaped text never contains a literal newline.
pub proof fn lemma_esc_no_nl(s: Seq<char>)
    ensures
        forall|j: int| 0 <= j < esc(s).len() ==> esc(s)[j] != '\n',
    decreases s.len(),
{
    if s.len() > 0 {
        lemma_esc_no_nl(s.drop_first());
        assert forall|j: int| 0 <= j < esc(s).len() implies esc(s)[j] != '\n' by {
            let head = esc_char(s[0]);
            if j < head.len() {
                assert(esc(s)[j] == head[j]);
            } else {
                assert(esc(s)[j] == esc(s.drop_first())[j - head.len()]);
            }
        }
    }
}

/// Escaping distributes over concatenation.
pub proof fn lemma_esc_concat(a: Seq<char>, b: Seq<char>)
    ensures
        esc(a + b) == esc(a) + esc(b),
    decreases a.len(),
{
    if a.len() == 0 {
        assert(a + b =~= b);
        assert(esc(a) + esc(b) =~= esc(b));
    } else {
        lemma_esc_concat(a.drop_first(), b);
        assert((a + b).drop_first() =~= a.drop_first() + b);
        assert(esc(a + b) =~= esc(a) + esc(b));
    }
}

/// A `char` cast to `u32` and back is unchanged.
proof fn lemma_char_cast_identity(c: char)
    ensures
        ((c as u32) as char) == c,
{
    broadcast use vstd::utf8::char_u32_cast;
}

pub proof fn lemma_hex_roundtrip(v: int)
    requires
        0 <= v < 16,
    ensures
        hex_value(hex_digit(v)) == Some(v),
{
}

/// Parsing an escaped string out of its context recovers it exactly:
/// wherever `esc(s)` is followed by a closing quote, the parse succeeds
/// and stops at that quote.
pub proof fn lemma_estr_roundtrip(line: Seq<char>, i: int, s: Seq<char>)
    requires
        starts_with_at(line, i, esc(s)),
        i + esc(s).len() < line.len(),
        line[i + esc(s).len()] == '"',
    ensures
        parse_estr(line, i) == Some((s, i + esc(s).len())),
    decreases s.len(),
{
    broadcast use vstd::utf8::char_u32_cast;

    if s.len() == 0 {
        assert(i + esc(s).len() == i);
        assert(line[i] == '"');
    } else {
        let c = s[0];
        let head = esc_char(c);
        let rest = s.drop_first();
        assert(esc(s) == head + esc(rest));
        let n = esc(s).len() as int;
        assert forall|k: int| 0 <= k < n implies line[i + k] == esc(s)[k] by {
            assert(line.subrange(i, i + n)[k] == line[i + k]);
        }
        assert forall|k: int| 0 <= k < head.len() implies esc(s)[k] == head[k] by {}
        let i2 = i + head.len();
        assert(starts_with_at(line, i2, esc(rest))) by {
            assert forall|k: int| 0 <= k < esc(rest).len() implies
                line.subrange(i2, i2 + esc(rest).len())[k] == esc(rest)[k] by {
                assert(line[i + (head.len() + k)] == esc(s)[head.len() + k]);
                assert(esc(s)[head.len() + k] == esc(rest)[k]);
                assert(line.subrange(i2, i2 + esc(rest).len())[k] == line[i2 + k]);
            }
            assert(line.subrange(i2, i2 + esc(rest).len()) =~= esc(rest));
        }
        assert(i2 + esc(rest).len() == i + esc(s).len());
        lemma_estr_roundtrip(line, i2, rest);
        let tail_parse = parse_estr(line, i2);
        assert(tail_parse == Some((rest, i + esc(s).len())));

        if c == '"' || c == '\\' || c == '\u{8}' || c == '\t' || c == '\n' || c == '\u{c}'
            || c == '\r'
        {
            assert(line[i + 0] == esc(s)[0] && line[i + 1] == esc(s)[1]);
            assert(line[i] == '\\');
            assert(line[i + 1] != 'u');
            assert(short_escape(line[i + 1]) == Some(c));
            assert(parse_estr(line, i) == Some((seq![c] + rest, i + esc(s).len())));
        } else if (c as u32) < 0x20 {
            let w = (c as u32) as int;
            assert(line[i + 0] == esc(s)[0] && line[i + 1] == esc(s)[1]
                && line[i + 2] == esc(s)[2] && line[i + 3] == esc(s)[3]
                && line[i + 4] == esc(s)[4] && line[i + 5] == esc(s)[5]);
            assert(line[i] == '\\' && line[i + 1] == 'u' && line[i + 2] == '0'
                && line[i + 3] == '0');
            assert(line[i + 4] == hex_digit(w / 16) && line[i + 5] == hex_digit(w % 16));
            lemma_hex_roundtrip(w / 16);
            lemma_hex_roundtrip(w % 16);
            assert(w != 8 && w != 9 && w != 0xa && w != 0xc && w != 0xd) by {
                lemma_char_cast_identity(c);
                lemma_char_cast_identity('\u{8}');
                lemma_char_cast_identity('\t');
                lemma_char_cast_identity('\n');
                lemma_char_cast_identity('\u{c}');
                lemma_char_cast_identity('\r');
                assert(('\u{8}' as u32) == 8 && ('\t' as u32) == 9 && ('\n' as u32) == 0xa
                    && ('\u{c}' as u32) == 0xc && ('\r' as u32) == 0xd);
                if w == 8 { assert(c == '\u{8}'); }
                if w == 9 { assert(c == '\t'); }
                if w == 0xa { assert(c == '\n'); }
                if w == 0xc { assert(c == '\u{c}'); }
                if w == 0xd { assert(c == '\r'); }
            }
            assert(u_escape_value(line[i + 4], line[i + 5]) == Some(w)) by {
                assert((w / 16) * 16 + (w % 16) == w) by (nonlinear_arith)
                    requires w >= 0;
            }
            assert(((w as u32) as char) == c) by {
                lemma_char_cast_identity(c);
            }
            assert(parse_estr(line, i) == Some((seq![c] + rest, i + esc(s).len())));
        } else {
            assert(plain_char(c));
            assert(line[i + 0] == esc(s)[0]);
            assert(line[i] == c);
            assert(parse_estr(line, i) == Some((seq![c] + rest, i + esc(s).len())));
        }
        assert(seq![c] + rest =~= s);
    }
}

/// The body of an encoded record parses back to the record.
pub proof fn lemma_body_roundtrip(r: RecordModel)
    ensures
        parse_body(encode_body(r)) == Some(r),
{
    match r {
        RecordModel::Put(k, v) => {
            let line = encode_body(r);
            let e1 = 9 + esc(k).len() as int;
            let e2 = e1 + 3 + esc(v).len() as int;
            assert(line.len() == e2 + 3);
            assert(starts_with_at(line, 0, set_open())) by {
                assert(line.subrange(0, 9) =~= set_open());
            }
            assert(starts_with_at(line, 9, esc(k))) by {
                assert(line.subrange(9, 9 + esc(k).len() as int) =~= esc(k));
            }
            assert(line[e1] == '"');
            lemma_estr_roundtrip(line, 9, k);
            assert(parse_estr(line, 9) == Some((k, e1)));
            assert(starts_with_at(line, e1, set_mid())) by {
                assert(line.subrange(e1, e1 + 3) =~= set_mid());
            }
            assert(starts_with_at(line, e1 + 3, esc(v))) by {
                assert(line.subrange(e1 + 3, e1 + 3 + esc(v).len() as int) =~= esc(v));
            }
            assert(line[e2] == '"');
            lemma_estr_roundtrip(line, e1 + 3, v);
            assert(parse_estr(line, e1 + 3) == Some((v, e2)));
            assert(starts_with_at(line, e2, set_tail())) by {
                assert(line.subrange(e2, e2 + 3) =~= set_tail());
            }
        }
        RecordModel::Del(k) => {
            let line = encode_body(r);
            let e1 = 8 + esc(k).len() as int;
            assert(line.len() == e1 + 2);
            assert(!starts_with_at(line, 0, set_open())) by {
                if starts_with_at(line, 0, set_open()) {
                    assert(line.subrange(0, 9)[2] == 'S');
                    assert(line[2] == 'D');
                }
            }
            assert(starts_with_at(line, 0, del_open())) by {
                assert(line.subrange(0, 8) =~= del_open());
            }
            assert(starts_with_at(line, 8, esc(k))) by {
                assert(line.subrange(8, 8 + esc(k).len() as int) =~= esc(k));
            }
            assert(line[e1] == '"');
            lemma_estr_roundtrip(line, 8, k);
            assert(parse_estr(line, 8) == Some((k, e1)));
            assert(starts_with_at(line, e1, del_tail())) by {
                assert(line.subrange(e1, e1 + 2) =~= del_tail());
            }
        }
    }
}

/// An encoded record never contains a newline before its final character.
pub proof fn lemma_encode_nl(r: RecordModel)
    ensures
        spec_encode(r).len() >= 1,
        spec_encode(r)[spec_encode(r).len() - 1] == '\n',
        forall|j: int| 0 <= j < spec_encode(r).len() - 1 ==> spec_encode(r)[j] != '\n',
{
    let body = encode_body(r);
    assert forall|j: int| 0 <= j < body.len() implies body[j] != '\n' by {
        match r {
            RecordModel::Put(k, v) => {
                lemma_esc_no_nl(k);
                lemma_esc_no_nl(v);
                let a = set_open() + esc(k);
                let b = a + set_mid();
                let c = b + esc(v);
                assert(body == c + set_tail());
                if j < 9 {
                    assert(body[j] == set_open()[j]);
                } else if j < a.len() {
                    assert(body[j] == esc(k)[j - 9]);
                } else if j < b.len() {
                    assert(body[j] == set_mid()[j - a.len()]);
                } else if j < c.len() {
                    assert(body[j] == esc(v)[j - b.len()]);
                } else {
                    assert(body[j] == set_tail()[j - c.len()]);
                }
            }
            RecordModel::Del(k) => {
                lemma_esc_no_nl(k);
                let a = del_open() + esc(k);
                assert(body == a + del_tail());
                if j < 8 {
                    assert(body[j] == del_open()[j]);
                } else if j < a.len() {
                    assert(body[j] == esc(k)[j - 8]);
                } else {
                    assert(body[j] == del_tail()[j - a.len()]);
                }
            }
        }
    }
}

/// `p` at `i` in `d` pins the characters of `d` there.
pub proof fn lemma_starts_with_index(d: Seq<char>, off: int, p: Seq<char>)
    requires
        starts_with_at(d, off, p),
    ensures
        forall|k: int| 0 <= k < p.len() ==> d[off + k] == p[k],
{
    assert forall|k: int| 0 <= k < p.len() implies d[off + k] == p[k] by {
        assert(d.subrange(off, off + p.len())[k] == d[off + k]);
    }
}

/// Wherever an encoded record occurs, parsing at its start recovers the
/// record and consumes exactly the encoding, whatever follows it.
#[verifier::spinoff_prover]
#[verifier::rlimit(100)]
pub proof fn lemma_encode_parses(d: Seq<char>, off: int, r: RecordModel)
    requires
        starts_with_at(d, off, spec_encode(r)),
    ensures
        spec_parse(d, off) == Some((r, off + spec_encode(r).len())),
{
    let enc = spec_encode(r);
    let body = encode_body(r);
    lemma_encode_nl(r);
    lemma_starts_with_index(d, off, enc);
    let j = off + enc.len() - 1;
    assert(d[off + (enc.len() - 1)] == enc[enc.len() - 1]);
    assert(d[j] == '\n');
    assert forall|k: int| off <= k < j implies d[k] != '\n' by {
        assert(d[off + (k - off)] == enc[k - off]);
    }
    lemma_find_nl_exact(d, off, j);
    assert(d.subrange(off, j) =~= body) by {
        assert forall|k: int| 0 <= k < j - off implies d.subrange(off, j)[k] == body[k] by {
            assert(d[off + k] == enc[k]);
            assert(enc[k] == body[k]);
        }
    }
    lemma_body_roundtrip(r);
}

/// A successful parse is unaffected by data appended later.
pub proof fn lemma_parse_extend(d: Seq<char>, ext: Seq<char>, off: int)
    requires
        spec_parse(d, off) is Some,
    ensures
        spec_parse(d + ext, off) == spec_parse(d, off),
{
    let j = find_nl(d, off)->0;
    lemma_find_nl_props(d, off);
    assert((d + ext)[j] == '\n');
    assert forall|k: int| off <= k < j implies (d + ext)[k] != '\n' by {
        assert((d + ext)[k] == d[k]);
    }
    assert(0 <= off) by {
        if off < 0 {
            assert(find_nl(d, off) is None);
        }
    }
    lemma_find_nl_exact(d + ext, off, j);
    assert((d + ext).subrange(off, j) =~= d.subrange(off, j));
}

/// A successful parse is unaffected by dropping data that lies after it.
pub proof fn lemma_parse_restrict(d: Seq<char>, bound: int, off: int)
    requires
        spec_parse(d, off) is Some,
        spec_parse(d, off)->Some_0.1 <= bound <= d.len(),
    ensures
        spec_parse(d.take(bound), off) == spec_parse(d, off),
{
    let j = find_nl(d, off)->0;
    lemma_find_nl_props(d, off);
    let d2 = d.take(bound);
    assert(d2[j] == '\n');
    assert forall|k: int| off <= k < j implies d2[k] != '\n' by {
        assert(d2[k] == d[k]);
    }
    assert(0 <= off) by {
        if off < 0 {
            assert(find_nl(d, off) is None);
        }
    }
    lemma_find_nl_exact(d2, off, j);
    assert(d2.subrange(off, j) =~= d.subrange(off, j));
}

/// A successful parse makes progress and stays in bounds.
pub proof fn lemma_parse_props(d: Seq<char>, off: int)
    requires
        spec_parse(d, off) is Some,
    ensures
        off < spec_parse(d, off)->Some_0.1 <= d.len(),
{
    lemma_find_nl_props(d, off);
}

// ---------------------------------------------------------------------------
// Executable encoding
// ---------------------------------------------------------------------------

/// The lowercase hexadecimal digit for a value below 16.
fn hex_digit_exec(v: u32) -> (c: char)
    requires
        v < 16,
    ensures
        c == hex_digit(v as int),
{
    if v == 0 { '0' } else if v == 1 { '1' } else if v == 2 { '2' }
    else if v == 3 { '3' } else if v == 4 { '4' } else if v == 5 { '5' }
    else if v == 6 { '6' } else if v == 7 { '7' } else if v == 8 { '8' }
    else if v == 9 { '9' } else if v == 10 { 'a' } else if v == 11 { 'b' }
    else if v == 12 { 'c' } else if v == 13 { 'd' } else if v == 14 { 'e' }
    else { 'f' }
}

/// Append the escaped form of one character.
fn push_esc_char(out: &mut Vec<char>, c: char)
    ensures
        final(out)@ == old(out)@ + esc_char(c),
{
    if c == '"' {
        out.push('\\');
        out.push('"');
    } else if c == '\\' {
        out.push('\\');
        out.push('\\');
    } else if c == '\u{8}' {
        out.push('\\');
        out.push('b');
    } else if c == '\t' {
        out.push('\\');
        out.push('t');
    } else if c == '\n' {
        out.push('\\');
        out.push('n');
    } else if c == '\u{c}' {
        out.push('\\');
        out.push('f');
    } else if c == '\r' {
        out.push('\\');
        out.push('r');
    } else if (c as u32) < 0x20 {
        let w = c as u32;
        out.push('\\');
        out.push('u');
        out.push('0');
        out.push('0');
        out.push(hex_digit_exec(w / 16));
        out.push(hex_digit_exec(w % 16));
    } else {
        out.push(c);
    }
    assert(final(out)@ =~= old(out)@ + esc_char(c));
}

/// The escaped form of a whole string.
fn escaped_chars(s: &Vec<char>) -> (out: Vec<char>)
    ensures
        out@ == esc(s@),
{
    let mut out: Vec<char> = Vec::new();
    let mut idx: usize = 0;
    while idx < s.len()
        invariant
            idx <= s@.len(),
            out@ == esc(s@.take(idx as int)),
        decreases s@.len() - idx,
    {
        proof {
            lemma_esc_concat(s@.take(idx as int), seq![s@[idx as int]]);
            assert(s@.take(idx as int) + seq![s@[idx as int]] =~= s@.take(idx as int + 1));
            assert(seq![s@[idx as int]].drop_first() =~= Seq::<char>::empty());
            assert(esc(Seq::<char>::empty()) =~= Seq::<char>::empty());
            assert(esc(seq![s@[idx as int]]) =~= esc_char(s@[idx as int]));
        }
        push_esc_char(&mut out, s[idx]);
        idx += 1;
    }
    proof {
        assert(s@.take(s@.len() as int) =~= s@);
    }
    out
}

/// Encode one record as a line, terminating newline included.
pub fn encode_record(r: &Record) -> (out: Vec<char>)
    ensures
        out@ == spec_encode(r@),
{
    let mut out: Vec<char> = Vec::new();
    match r {
        Record::Put(k, v) => {
            out.push('{'); out.push('"'); out.push('S'); out.push('e'); out.push('t');
            out.push('"'); out.push(':'); out.push('['); out.push('"');
            assert(out@ =~= set_open());
            let mut ek = escaped_chars(k);
            out.append(&mut ek);
            out.push('"'); out.push(','); out.push('"');
            assert(out@ =~= set_open() + esc(k@) + set_mid());
            let mut ev = escaped_chars(v);
            out.append(&mut ev);
            out.push('"'); out.push(']'); out.push('}'); out.push('\n');
            assert(out@ =~= spec_encode(r@));
        }
        Record::Del(k) => {
            out.push('{'); out.push('"'); out.push('D'); out.push('e'); out.push('l');
            out.push('"'); out.push(':'); out.push('"');
            assert(out@ =~= del_open());
            let mut ek = escaped_chars(k);
            out.append(&mut ek);
            out.push('"'); out.push('}'); out.push('\n');
            assert(out@ =~= spec_encode(r@));
        }
    }
    out
}

// ---------------------------------------------------------------------------
// Executable parsing
// ---------------------------------------------------------------------------

/// The control character with a given code point.
fn ctrl_char_exec(w: u32) -> (c: char)
    requires
        w < 0x20,
    ensures
        (c as u32) == w,
{
    if w == 0 { '\u{0}' } else if w == 1 { '\u{1}' } else if w == 2 { '\u{2}' }
    else if w == 3 { '\u{3}' } else if w == 4 { '\u{4}' } else if w == 5 { '\u{5}' }
    else if w == 6 { '\u{6}' } else if w == 7 { '\u{7}' } else if w == 8 { '\u{8}' }
    else if w == 9 { '\u{9}' } else if w == 10 { '\u{a}' } else if w == 11 { '\u{b}' }
    else if w == 12 { '\u{c}' } else if w == 13 { '\u{d}' } else if w == 14 { '\u{e}' }
    else if w == 15 { '\u{f}' } else if w == 16 { '\u{10}' } else if w == 17 { '\u{11}' }
    else if w == 18 { '\u{12}' } else if w == 19 { '\u{13}' } else if w == 20 { '\u{14}' }
    else if w == 21 { '\u{15}' } else if w == 22 { '\u{16}' } else if w == 23 { '\u{17}' }
    else if w == 24 { '\u{18}' } else if w == 25 { '\u{19}' } else if w == 26 { '\u{1a}' }
    else if w == 27 { '\u{1b}' } else if w == 28 { '\u{1c}' } else if w == 29 { '\u{1d}' }
    else if w == 30 { '\u{1e}' } else { '\u{1f}' }
}

/// The value of a lowercase hexadecimal digit.
fn hex_value_exec(c: char) -> (v: Option<u32>)
    ensures
        match v {
            Some(x) => hex_value(c) == Some(x as int) && x < 16,
            None => hex_value(c) is None,
        },
{
    if c == '0' { Some(0) } else if c == '1' { Some(1) } else if c == '2' { Some(2) }
    else if c == '3' { Some(3) } else if c == '4' { Some(4) } else if c == '5' { Some(5) }
    else if c == '6' { Some(6) } else if c == '7' { Some(7) } else if c == '8' { Some(8) }
    else if c == '9' { Some(9) } else if c == 'a' { Some(10) } else if c == 'b' { Some(11) }
    else if c == 'c' { Some(12) } else if c == 'd' { Some(13) } else if c == 'e' { Some(14) }
    else if c == 'f' { Some(15) } else { None }
}

/// Parse the escaped content of a quoted string starting at `start`.
fn parse_estr_exec(line: &Vec<char>, start: usize) -> (r: Option<(Vec<char>, usize)>)
    ensures
        match r {
            Some((s, e)) => parse_estr(line@, start as int) == Some((s@, e as int)),
            None => parse_estr(line@, start as int) is None,
        },
{
    let mut acc: Vec<char> = Vec::new();
    let mut i: usize = start;
    proof {
        assert forall|s2: Seq<char>, e2: int|
            parse_estr(line@, start as int) == Some((s2, e2)) implies
            parse_estr(line@, start as int) == Some((acc@ + s2, e2)) by {
            assert(acc@ + s2 =~= s2);
        }
    }
    loop
        invariant
            start <= i,
            forall|s2: Seq<char>, e2: int|
                parse_estr(line@, i as int) == Some((s2, e2)) ==>
                    parse_estr(line@, start as int) == Some((acc@ + s2, e2)),
            parse_estr(line@, i as int) is None ==> parse_estr(line@, start as int) is None,
        decreases line@.len() - i,
    {
        if i >= line.len() {
            return None;
        }
        let c = line[i];
        if c == '"' {
            proof {
                assert(parse_estr(line@, i as int) == Some((Seq::<char>::empty(), i as int)));
                assert(acc@ + Seq::<char>::empty() =~= acc@);
            }
            return Some((acc, i));
        } else if c == '\\' {
            if line.len() - i >= 2 && line[i + 1] == 'u' {
                if line.len() - i >= 6 && line[i + 2] == '0' && line[i + 3] == '0' {
                    let h1 = hex_value_exec(line[i + 4]);
                    let h2 = hex_value_exec(line[i + 5]);
                    match (h1, h2) {
                        (Some(a), Some(b)) => {
                            let w = a * 16 + b;
                            if w < 0x20 && w != 8 && w != 9 && w != 0xa && w != 0xc && w != 0xd {
                                let c0 = ctrl_char_exec(w);
                                proof {
                                    lemma_char_cast_identity(c0);
                                    assert(u_escape_value(line@[i as int + 4], line@[i as int + 5])
                                        == Some(w as int));
                                    assert(((w as int) as u32) as char == c0);
                                    assert forall|s2: Seq<char>, e2: int|
                                        parse_estr(line@, i as int + 6) == Some((s2, e2)) implies
                                        parse_estr(line@, start as int)
                                            == Some((acc@ + seq![c0] + s2, e2)) by {
                                        assert(parse_estr(line@, i as int)
                                            == Some((seq![c0] + s2, e2)));
                                        assert(acc@ + (seq![c0] + s2) =~= (acc@ + seq![c0]) + s2);
                                    }
                                    assert(parse_estr(line@, i as int + 6) is None
                                        ==> parse_estr(line@, i as int) is None);
                                }
                                let ghost acc0 = acc@;
                                acc.push(c0);
                                proof {
                                    assert(acc@ =~= acc0 + seq![c0]);
                                }
                                i += 6;
                            } else {
                                proof {
                                    assert(u_escape_value(line@[i as int + 4], line@[i as int + 5])
                                        is None);
                                }
                                return None;
                            }
                        }
                        _ => {
                            return None;
                        }
                    }
                } else {
                    return None;
                }
            } else if line.len() - i >= 2 {
                let e = line[i + 1];
                let dec = if e == '"' { Some('"') } else if e == '\\' { Some('\\') }
                    else if e == 'n' { Some('\n') } else if e == 'r' { Some('\r') }
                    else if e == 't' { Some('\t') } else if e == 'b' { Some('\u{8}') }
                    else if e == 'f' { Some('\u{c}') } else { None };
                match dec {
                    Some(c0) => {
                        proof {
                            assert forall|s2: Seq<char>, e2: int|
                                parse_estr(line@, i as int + 2) == Some((s2, e2)) implies
                                parse_estr(line@, start as int)
                                    == Some((acc@ + seq![c0] + s2, e2)) by {
                                assert(parse_estr(line@, i as int) == Some((seq![c0] + s2, e2)));
                                assert(acc@ + (seq![c0] + s2) =~= (acc@ + seq![c0]) + s2);
                            }
                            assert(parse_estr(line@, i as int + 2) is None
                                ==> parse_estr(line@, i as int) is None);
                        }
                        let ghost acc0 = acc@;
                        acc.push(c0);
                        proof {
                            assert(acc@ =~= acc0 + seq![c0]);
                        }
                        i += 2;
                    }
                    None => {
                        return None;
                    }
                }
            } else {
                return None;
            }
        } else if c != '"' && c != '\\' && (c as u32) >= 0x20 {
            proof {
                assert forall|s2: Seq<char>, e2: int|
                    parse_estr(line@, i as int + 1) == Some((s2, e2)) implies
                    parse_estr(line@, start as int) == Some((acc@ + seq![c] + s2, e2)) by {
                    assert(parse_estr(line@, i as int) == Some((seq![c] + s2, e2)));
                    assert(acc@ + (seq![c] + s2) =~= (acc@ + seq![c]) + s2);
                }
                assert(parse_estr(line@, i as int + 1) is None
                    ==> parse_estr(line@, i as int) is None);
            }
            let ghost acc0 = acc@;
            acc.push(c);
            proof {
                assert(acc@ =~= acc0 + seq![c]);
            }
            i += 1;
        } else {
            return None;
        }
    }
}

/// Parse one record-line body (no terminating newline).
fn parse_body_exec(line: &Vec<char>) -> (r: Option<Record>)
    ensures
        match r {
            Some(rec) => parse_body(line@) == Some(rec@),
            None => parse_body(line@) is None,
        },
{
    if line.len() >= 9
        && line[0] == '{' && line[1] == '"' && line[2] == 'S' && line[3] == 'e'
        && line[4] == 't' && line[5] == '"' && line[6] == ':' && line[7] == '['
        && line[8] == '"'
    {
        proof {
            assert(line@.subrange(0, 9) =~= set_open());
        }
        match parse_estr_exec(line, 9) {
            Some((k, e1)) => {
                proof {
                    lemma_parse_estr_props(line@, 9);
                }
                if line.len() - e1 >= 3 && line[e1] == '"' && line[e1 + 1] == ','
                    && line[e1 + 2] == '"'
                {
                    proof {
                        assert(line@.subrange(e1 as int, e1 as int + 3) =~= set_mid());
                    }
                    match parse_estr_exec(line, e1 + 3) {
                        Some((v, e2)) => {
                            proof {
                                lemma_parse_estr_props(line@, e1 as int + 3);
                            }
                            if line.len() - e2 == 3 && line[e2] == '"' && line[e2 + 1] == ']'
                                && line[e2 + 2] == '}'
                            {
                                proof {
                                    assert(line@.subrange(e2 as int, e2 as int + 3)
                                        =~= set_tail());
                                }
                                Some(Record::Put(k, v))
                            } else {
                                proof {
                                    if starts_with_at(line@, e2 as int, set_tail()) {
                                        assert(line@[e2 as int] == '"');
                                        assert(line@[e2 as int + 1] == ']');
                                        assert(line@[e2 as int + 2] == '}');
                                    }
                                }
                                None
                            }
                        }
                        None => None,
                    }
                } else {
                    proof {
                        if starts_with_at(line@, e1 as int, set_mid()) {
                            assert(line@[e1 as int] == '"');
                            assert(line@[e1 as int + 1] == ',');
                            assert(line@[e1 as int + 2] == '"');
                        }
                    }
                    None
                }
            }
            None => None,
        }
    } else if line.len() >= 8
        && line[0] == '{' && line[1] == '"' && line[2] == 'D' && line[3] == 'e'
        && line[4] == 'l' && line[5] == '"' && line[6] == ':' && line[7] == '"'
    {
        proof {
            assert(line@.subrange(0, 8) =~= del_open());
            if starts_with_at(line@, 0, set_open()) {
                assert(line@.subrange(0, 9)[2] == 'S');
            }
        }
        match parse_estr_exec(line, 8) {
            Some((k, e1)) => {
                proof {
                    lemma_parse_estr_props(line@, 8);
                }
                if line.len() - e1 == 2 && line[e1] == '"' && line[e1 + 1] == '}' {
                    proof {
                        assert(line@.subrange(e1 as int, e1 as int + 2) =~= del_tail());
                    }
                    Some(Record::Del(k))
                } else {
                    proof {
                        if starts_with_at(line@, e1 as int, del_tail()) {
                            assert(line@[e1 as int] == '"');
                            assert(line@[e1 as int + 1] == '}');
                        }
                    }
                    None
                }
            }
            None => None,
        }
    } else {
        proof {
            if starts_with_at(line@, 0, set_open()) {
                assert(line@.subrange(0, 9)[0] == '{');
                assert(line@.subrange(0, 9)[1] == '"');
                assert(line@.subrange(0, 9)[2] == 'S');
                assert(line@.subrange(0, 9)[3] == 'e');
                assert(line@.subrange(0, 9)[4] == 't');
                assert(line@.subrange(0, 9)[5] == '"');
                assert(line@.subrange(0, 9)[6] == ':');
                assert(line@.subrange(0, 9)[7] == '[');
                assert(line@.subrange(0, 9)[8] == '"');
            }
            if starts_with_at(line@, 0, del_open()) {
                assert(line@.subrange(0, 8)[0] == '{');
                assert(line@.subrange(0, 8)[1] == '"');
                assert(line@.subrange(0, 8)[2] == 'D');
                assert(line@.subrange(0, 8)[3] == 'e');
                assert(line@.subrange(0, 8)[4] == 'l');
                assert(line@.subrange(0, 8)[5] == '"');
                assert(line@.subrange(0, 8)[6] == ':');
                assert(line@.subrange(0, 8)[7] == '"');
            }
        }
        None
    }
}

/// Parse one record starting at `off` in a segment's data.  `None` marks a
/// truncated or corrupt tail; recovery and compaction stop there.
pub fn parse_record_at(d: &Vec<char>, off: usize) -> (res: Option<(Record, usize)>)
    ensures
        match res {
            Some((rec, end)) => {
                &&& spec_parse(d@, off as int) == Some((rec@, end as int))
                &&& off < end <= d@.len()
            }
            None => spec_parse(d@, off as int) is None,
        },
{
    if off >= d.len() {
        return None;
    }
    let mut j: usize = off;
    while j < d.len() && d[j] != '\n'
        invariant
            off <= j <= d@.len(),
            find_nl(d@, off as int) == find_nl(d@, j as int),
        decreases d@.len() - j,
    {
        j += 1;
    }
    if j >= d.len() {
        return None;
    }
    // extract the line d[off..j]
    let mut line: Vec<char> = Vec::new();
    let mut t: usize = off;
    while t < j
        invariant
            off <= t <= j <= d@.len(),
            line@ == d@.subrange(off as int, t as int),
        decreases j - t,
    {
        proof {
            assert(d@.subrange(off as int, t as int + 1)
                =~= d@.subrange(off as int, t as int) + seq![d@[t as int]]);
        }
        line.push(d[t]);
        t += 1;
    }
    match parse_body_exec(&line) {
        Some(rec) => {
            proof {
                lemma_parse_props(d@, off as int);
            }
            Some((rec, j + 1))
        }
        None => None,
    }
}

} // verus!
