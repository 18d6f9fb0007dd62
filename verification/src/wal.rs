//! Segments and the replay model.
//!
//! A segment is an append-only file of records; the collection of segments,
//! ordered by id, is the durable state of the store.  The in-memory key
//! directory is always a function of that collection: the one obtained by
//! replaying every segment's records oldest to newest, inserting on a set
//! and erasing on a delete.  [`replay_segs`] is that function; the lemmas
//! here say how it responds to appending a record ([`lemma_replay_append`]),
//! what each entry points at ([`lemma_replay_segs_valid`]), and how one
//! segment's data settles each key ([`lemma_replay_decide`]).

use vstd::prelude::*;

use crate::chars::{chars_to_string, string_to_chars};
use crate::record::{RecordModel, hex_digit, spec_parse, spec_encode, starts_with_at};
use crate::record::{
    lemma_encode_parses, lemma_parse_extend, lemma_parse_props, lemma_parse_restrict,
};

verus! {

/// One segment file: its numeric id and its character contents.
pub struct Segment {
    pub id: u32,
    pub data: Vec<char>,
}

/// What the directory model remembers about a live key: the segment and
/// offset of the record that most recently set it, and the value set.
pub struct LiveEntry {
    pub seg_id: u32,
    pub off: int,
    pub value: Seq<char>,
}

/// The effect of one record on the directory model.
pub open spec fn apply_record(
    m: Map<Seq<char>, LiveEntry>,
    id: u32,
    off: int,
    r: RecordModel,
) -> Map<Seq<char>, LiveEntry> {
    match r {
        RecordModel::Put(k, v) => m.insert(k, LiveEntry { seg_id: id, off: off, value: v }),
        RecordModel::Del(k) => m.remove(k),
    }
}

/// Replay the records of one segment's data from `off` on, stopping at the
/// first position that does not parse (a truncated or corrupt tail).
pub open spec fn replay_from(
    m: Map<Seq<char>, LiveEntry>,
    id: u32,
    d: Seq<char>,
    off: int,
) -> Map<Seq<char>, LiveEntry>
    decreases d.len() - off,
{
    if off < 0 || off >= d.len() {
        m
    } else {
        match spec_parse(d, off) {
            Some((r, end)) => if off < end <= d.len() {
                replay_from(apply_record(m, id, off, r), id, d, end)
            } else {
                m
            },
            None => m,
        }
    }
}

/// Where replay of one segment's data stops: the end of its last
/// parseable record.
pub open spec fn replay_end(d: Seq<char>, off: int) -> int
    decreases d.len() - off,
{
    if off < 0 || off >= d.len() {
        off
    } else {
        match spec_parse(d, off) {
            Some((r, end)) => if off < end <= d.len() {
                replay_end(d, end)
            } else {
                off
            },
            None => off,
        }
    }
}

/// How many records replay visits from `off` on.
pub open spec fn rec_count(d: Seq<char>, off: int) -> nat
    decreases d.len() - off,
{
    if off < 0 || off >= d.len() {
        0
    } else {
        match spec_parse(d, off) {
            Some((r, end)) => if off < end <= d.len() {
                1 + rec_count(d, end)
            } else {
                0
            },
            None => 0,
        }
    }
}

/// `o` lies on the chain of record offsets that replay visits from `off`.
pub open spec fn reach(d: Seq<char>, off: int, o: int) -> bool
    decreases d.len() - off,
{
    if off == o {
        true
    } else if off < 0 || off >= d.len() {
        false
    } else {
        match spec_parse(d, off) {
            Some((r, end)) => if off < end <= d.len() {
                reach(d, end, o)
            } else {
                false
            },
            None => false,
        }
    }
}

/// The directory model after replaying a sequence of segments in order
/// (the last segment is the newest).
pub open spec fn replay_segs(segs: Seq<Segment>) -> Map<Seq<char>, LiveEntry>
    decreases segs.len(),
{
    if segs.len() == 0 {
        Map::empty()
    } else {
        replay_from(replay_segs(segs.drop_last()), segs.last().id, segs.last().data@, 0)
    }
}

/// The record at offset `o` is a set of `k` to `v`.
pub open spec fn put_at(d: Seq<char>, o: int, k: Seq<char>, v: Seq<char>) -> bool {
    spec_parse(d, o) is Some && spec_parse(d, o)->Some_0.0 == RecordModel::Put(k, v)
}

/// The entry for `k` points into some segment of `segs`, at a reachable
/// offset holding a set of `k` to the entry's value.
pub open spec fn live_at(segs: Seq<Segment>, k: Seq<char>, e: LiveEntry) -> bool {
    exists|i: int|
        0 <= i < segs.len() && #[trigger] segs[i].id == e.seg_id
            && reach(segs[i].data@, 0, e.off) && put_at(segs[i].data@, e.off, k, e.value)
}

// ---------------------------------------------------------------------------
// How one segment settles a key
// ---------------------------------------------------------------------------

/// The outcome of one segment's data for one key: untouched, set at a
/// given offset to a given value, or erased.
pub enum KeyDecision {
    Pass,
    SetTo(int, Seq<char>),
    Erased,
}

/// The newest mention of `k` at or after `off`, as replay sees it.
pub open spec fn decide(d: Seq<char>, off: int, k: Seq<char>) -> KeyDecision
    decreases d.len() - off,
{
    if off < 0 || off >= d.len() {
        KeyDecision::Pass
    } else {
        match spec_parse(d, off) {
            Some((r, end)) => if off < end <= d.len() {
                let rest = decide(d, end, k);
                if !(rest is Pass) {
                    rest
                } else {
                    match r {
                        RecordModel::Put(k2, v) => if k2 == k {
                            KeyDecision::SetTo(off, v)
                        } else {
                            KeyDecision::Pass
                        },
                        RecordModel::Del(k2) => if k2 == k {
                            KeyDecision::Erased
                        } else {
                            KeyDecision::Pass
                        },
                    }
                }
            } else {
                KeyDecision::Pass
            },
            None => KeyDecision::Pass,
        }
    }
}

/// Replay acts on each key exactly as that key's decision says: a passed
/// key keeps its incoming entry, a set key ends at the recorded offset and
/// value, an erased key ends absent.
pub proof fn lemma_replay_decide(
    m: Map<Seq<char>, LiveEntry>,
    id: u32,
    d: Seq<char>,
    off: int,
    k: Seq<char>,
)
    ensures
        ({
            let res = replay_from(m, id, d, off);
            match decide(d, off, k) {
                KeyDecision::Pass => res.contains_key(k) == m.contains_key(k)
                    && (m.contains_key(k) ==> res[k] == m[k]),
                KeyDecision::SetTo(o, v) => res.contains_key(k)
                    && res[k] == (LiveEntry { seg_id: id, off: o, value: v }),
                KeyDecision::Erased => !res.contains_key(k),
            }
        }),
    decreases d.len() - off,
{
    if off < 0 || off >= d.len() {
    } else {
        match spec_parse(d, off) {
            Some((r, end)) => {
                if off < end <= d.len() {
                    lemma_replay_decide(apply_record(m, id, off, r), id, d, end, k);
                }
            }
            None => {}
        }
    }
}

/// A set decision points at a real, reachable set record for that key.
pub proof fn lemma_decide_valid(d: Seq<char>, off: int, k: Seq<char>)
    ensures
        ({
            match decide(d, off, k) {
                KeyDecision::SetTo(o, v) => reach(d, off, o) && put_at(d, o, k, v),
                _ => true,
            }
        }),
    decreases d.len() - off,
{
    if off < 0 || off >= d.len() {
    } else {
        match spec_parse(d, off) {
            Some((r, end)) => {
                if off < end <= d.len() {
                    lemma_decide_valid(d, end, k);
                    match decide(d, end, k) {
                        KeyDecision::SetTo(o, v) => {
                            lemma_reach_step(d, off, end, o);
                        }
                        _ => {}
                    }
                }
            }
            None => {}
        }
    }
}

/// Reachability is preserved by stepping back over one parsed record.
proof fn lemma_reach_step(d: Seq<char>, off: int, end: int, o: int)
    requires
        0 <= off < d.len(),
        spec_parse(d, off) is Some,
        spec_parse(d, off)->Some_0.1 == end,
        off < end <= d.len(),
        reach(d, end, o),
    ensures
        reach(d, off, o),
{
}

/// Reachability only moves forward.
pub proof fn lemma_reach_ge(d: Seq<char>, off: int, o: int)
    requires
        reach(d, off, o),
    ensures
        off <= o,
    decreases d.len() - off,
{
    if off == o {
    } else {
        match spec_parse(d, off) {
            Some((r, end)) => {
                if off < end <= d.len() {
                    lemma_reach_ge(d, end, o);
                }
            }
            None => {}
        }
    }
}

/// A chain extends by one parsed record.
pub proof fn lemma_reach_extend(d: Seq<char>, x: int, y: int)
    requires
        reach(d, x, y),
        0 <= y < d.len(),
        spec_parse(d, y) is Some,
        y < spec_parse(d, y)->Some_0.1 <= d.len(),
    ensures
        reach(d, x, spec_parse(d, y)->Some_0.1),
    decreases d.len() - x,
{
    if x == y {
        let end = spec_parse(d, y)->Some_0.1;
        assert(reach(d, end, end));
    } else {
        match spec_parse(d, x) {
            Some((r, end)) => {
                if x < end <= d.len() {
                    lemma_reach_extend(d, end, y);
                }
            }
            None => {}
        }
    }
}

/// Two offsets on one chain are on a common sub-chain: the smaller
/// reaches the larger.
pub proof fn lemma_reach_linear(d: Seq<char>, x: int, a: int, b: int)
    requires
        reach(d, x, a),
        reach(d, x, b),
        a <= b,
    ensures
        reach(d, a, b),
    decreases d.len() - x,
{
    if x == a {
    } else {
        lemma_reach_ge(d, x, a);
        match spec_parse(d, x) {
            Some((r, end)) => {
                if x < end <= d.len() {
                    if x == b {
                        lemma_reach_ge(d, x, a);
                        assert(a == b);
                    } else {
                        lemma_reach_linear(d, end, a, b);
                    }
                }
            }
            None => {}
        }
    }
}

// ---------------------------------------------------------------------------
// Appending one record
// ---------------------------------------------------------------------------

/// Appending one encoded record to fully-replayed data extends the replay
/// by exactly that record, at an offset equal to the old length.
pub proof fn lemma_replay_append(
    m: Map<Seq<char>, LiveEntry>,
    id: u32,
    d: Seq<char>,
    off: int,
    r: RecordModel,
)
    requires
        0 <= off <= d.len(),
        replay_end(d, off) == d.len(),
    ensures
        replay_from(m, id, d + spec_encode(r), off)
            == apply_record(replay_from(m, id, d, off), id, d.len() as int, r),
        replay_end(d + spec_encode(r), off) == d.len() + spec_encode(r).len(),
        rec_count(d + spec_encode(r), off) == rec_count(d, off) + 1,
    decreases d.len() - off,
{
    let d2 = d + spec_encode(r);
    if off == d.len() {
        assert(starts_with_at(d2, off, spec_encode(r))) by {
            assert(d2.subrange(off, off + spec_encode(r).len()) =~= spec_encode(r));
        }
        lemma_encode_parses(d2, off, r);
        let end = off + spec_encode(r).len() as int;
        assert(spec_parse(d2, off) == Some((r, end)));
        assert(replay_from(apply_record(m, id, off, r), id, d2, end)
            == apply_record(m, id, off, r));
        assert(replay_end(d2, end) == end);
        assert(rec_count(d2, end) == 0);
        assert(replay_from(m, id, d, off) == m);
        assert(rec_count(d, off) == 0);
    } else {
        assert(off < d.len());
        assert(spec_parse(d, off) is Some && ({
            let end = spec_parse(d, off)->Some_0.1;
            off < end <= d.len()
        })) by {
            if spec_parse(d, off) is None {
                assert(replay_end(d, off) == off);
            } else {
                let end = spec_parse(d, off)->Some_0.1;
                if !(off < end <= d.len()) {
                    assert(replay_end(d, off) == off);
                }
            }
        }
        let r0 = spec_parse(d, off)->Some_0.0;
        let end = spec_parse(d, off)->Some_0.1;
        lemma_parse_extend(d, spec_encode(r), off);
        assert(spec_parse(d2, off) == Some((r0, end)));
        assert(replay_end(d, end) == d.len());
        lemma_replay_append(apply_record(m, id, off, r0), id, d, end, r);
    }
}

/// Each record spans at least one character, so the count is bounded.
pub proof fn lemma_rec_count_bound(d: Seq<char>, off: int)
    ensures
        rec_count(d, off) <= d.len(),
        off >= 0 ==> rec_count(d, off) + off <= d.len() || rec_count(d, off) == 0,
    decreases d.len() - off,
{
    if off < 0 || off >= d.len() {
    } else {
        match spec_parse(d, off) {
            Some((r, end)) => {
                if off < end <= d.len() {
                    lemma_rec_count_bound(d, end);
                }
            }
            None => {}
        }
    }
}

/// Replay never stops before its starting offset.
pub proof fn lemma_replay_end_ge(d: Seq<char>, off: int)
    ensures
        replay_end(d, off) >= off,
    decreases d.len() - off,
{
    if off < 0 || off >= d.len() {
    } else {
        match spec_parse(d, off) {
            Some((r, end)) => {
                if off < end <= d.len() {
                    lemma_replay_end_ge(d, end);
                }
            }
            None => {}
        }
    }
}

/// Trimming data at the point where its replay stops changes nothing that
/// replay sees: the directory, the stopping point and the record count are
/// those of the untrimmed data.
pub proof fn lemma_replay_take(
    m: Map<Seq<char>, LiveEntry>,
    id: u32,
    d: Seq<char>,
    j: int,
    stop: int,
)
    requires
        0 <= j <= stop <= d.len(),
        replay_end(d, j) == stop,
    ensures
        replay_from(m, id, d.take(stop), j) == replay_from(m, id, d, j),
        replay_end(d.take(stop), j) == stop,
        rec_count(d.take(stop), j) == rec_count(d, j),
    decreases d.len() - j,
{
    let d2 = d.take(stop);
    if j >= d.len() {
    } else {
        match spec_parse(d, j) {
            Some((r, end)) => {
                if j < end <= d.len() {
                    lemma_replay_end_ge(d, end);
                    lemma_parse_restrict(d, stop, j);
                    lemma_replay_take(apply_record(m, id, j, r), id, d, end, stop);
                }
            }
            None => {}
        }
    }
}

// ---------------------------------------------------------------------------
// Validity of replay entries
// ---------------------------------------------------------------------------

/// Every entry that one segment's replay adds points into that segment,
/// at a reachable set record of the key; entries it leaves alone are the
/// incoming ones.
proof fn lemma_replay_from_valid(
    m: Map<Seq<char>, LiveEntry>,
    id: u32,
    d: Seq<char>,
    off: int,
    k: Seq<char>,
)
    requires
        replay_from(m, id, d, off).contains_key(k),
    ensures
        (m.contains_key(k) && replay_from(m, id, d, off)[k] == m[k])
            || ({
            let e = replay_from(m, id, d, off)[k];
            e.seg_id == id && reach(d, off, e.off) && put_at(d, e.off, k, e.value)
        }),
{
    lemma_replay_decide(m, id, d, off, k);
    lemma_decide_valid(d, off, k);
}

/// Every entry of the replayed directory points into one of the segments,
/// at a reachable offset holding a set record of its key and value.
pub proof fn lemma_replay_segs_valid(segs: Seq<Segment>, k: Seq<char>)
    requires
        replay_segs(segs).contains_key(k),
    ensures
        live_at(segs, k, replay_segs(segs)[k]),
    decreases segs.len(),
{
    let m = replay_segs(segs);
    let e = m[k];
    let prefix = segs.drop_last();
    let last = segs.last();
    lemma_replay_from_valid(replay_segs(prefix), last.id, last.data@, 0, k);
    if replay_segs(prefix).contains_key(k) && m[k] == replay_segs(prefix)[k] {
        lemma_replay_segs_valid(prefix, k);
        let i = choose|i: int|
            0 <= i < prefix.len() && #[trigger] prefix[i].id == e.seg_id
                && reach(prefix[i].data@, 0, e.off) && put_at(prefix[i].data@, e.off, k, e.value);
        assert(segs[i].id == e.seg_id && reach(segs[i].data@, 0, e.off)
            && put_at(segs[i].data@, e.off, k, e.value));
    } else {
        let i = segs.len() - 1;
        assert(segs[i].id == e.seg_id && reach(segs[i].data@, 0, e.off)
            && put_at(segs[i].data@, e.off, k, e.value));
    }
}

// ---------------------------------------------------------------------------
// Simple consequences used by the store
// ---------------------------------------------------------------------------

/// Pushing an empty segment does not change the directory.
pub proof fn lemma_push_empty_segment(segs: Seq<Segment>, s: Segment)
    requires
        s.data@.len() == 0,
    ensures
        replay_segs(segs.push(s)) == replay_segs(segs),
{
    let segs2 = segs.push(s);
    assert(segs2.drop_last() =~= segs);
    assert(segs2.last() == s);
    assert(replay_from(replay_segs(segs), s.id, s.data@, 0) == replay_segs(segs));
}


// ---------------------------------------------------------------------------
// Segment file names
// ---------------------------------------------------------------------------

/// The decimal digits of a positive number, most significant first.
pub open spec fn dec_digits(n: int) -> Seq<char>
    decreases n,
{
    if n <= 0 {
        Seq::empty()
    } else {
        dec_digits(n / 10).push(hex_digit(n % 10))
    }
}

/// The file name of a segment: its id as a zero-padded four-digit
/// decimal (wider ids keep all their digits), with the `.wal` suffix.
pub open spec fn wal_file_name_spec(id: int) -> Seq<char> {
    (if id < 10000 {
        seq![
            hex_digit(id / 1000 % 10),
            hex_digit(id / 100 % 10),
            hex_digit(id / 10 % 10),
            hex_digit(id % 10),
        ]
    } else {
        dec_digits(id)
    }) + seq!['.', 'w', 'a', 'l']
}

/// The decimal digit for a value below ten.
fn dec_digit_exec(v: u32) -> (c: char)
    requires
        v < 10,
    ensures
        c == hex_digit(v as int),
{
    if v == 0 { '0' } else if v == 1 { '1' } else if v == 2 { '2' }
    else if v == 3 { '3' } else if v == 4 { '4' } else if v == 5 { '5' }
    else if v == 6 { '6' } else if v == 7 { '7' } else if v == 8 { '8' }
    else { '9' }
}

/// The value of a decimal digit.
fn dec_value_exec(c: char) -> (r: Option<u32>)
    ensures
        match r {
            Some(v) => v < 10 && c == hex_digit(v as int),
            None => forall|v: int| 0 <= v < 10 ==> c != hex_digit(v),
        },
{
    if c == '0' { Some(0) } else if c == '1' { Some(1) } else if c == '2' { Some(2) }
    else if c == '3' { Some(3) } else if c == '4' { Some(4) } else if c == '5' { Some(5) }
    else if c == '6' { Some(6) } else if c == '7' { Some(7) } else if c == '8' { Some(8) }
    else if c == '9' { Some(9) } else { None }
}

/// The decimal digits of a number, most significant first.
fn dec_digits_exec(n: u32) -> (r: Vec<char>)
    ensures
        r@ == dec_digits(n as int),
    decreases n,
{
    if n == 0 {
        Vec::new()
    } else {
        let mut r = dec_digits_exec(n / 10);
        r.push(dec_digit_exec(n % 10));
        proof {
            assert(r@ =~= dec_digits(n as int));
        }
        r
    }
}

/// The file name under which a segment with this id is stored.
pub fn wal_file_name(id: u32) -> (r: String)
    ensures
        r@ == wal_file_name_spec(id as int),
{
    let mut out: Vec<char>;
    if id < 10000 {
        out = Vec::new();
        out.push(dec_digit_exec(id / 1000 % 10));
        out.push(dec_digit_exec(id / 100 % 10));
        out.push(dec_digit_exec(id / 10 % 10));
        out.push(dec_digit_exec(id % 10));
    } else {
        out = dec_digits_exec(id);
    }
    out.push('.');
    out.push('w');
    out.push('a');
    out.push('l');
    proof {
        assert(out@ =~= wal_file_name_spec(id as int));
    }
    chars_to_string(&out)
}

/// Parse a segment file name of the canonical four-digit form `NNNN.wal`
/// back to its id; names of any other shape are not segment files.
#[verifier::rlimit(60)]
pub fn parse_wal_file_name(name: &str) -> (r: Option<u32>)
    ensures
        match r {
            Some(id) => id <= 9999 && name@ == wal_file_name_spec(id as int),
            None => forall|id: int| 0 <= id <= 9999 ==> name@ != wal_file_name_spec(id),
        },
{
    let cs = string_to_chars(name);
    if cs.len() != 8 {
        proof {
            assert forall|id: int| 0 <= id <= 9999 implies name@ != wal_file_name_spec(id) by {
                assert(wal_file_name_spec(id).len() == 8);
            }
        }
        return None;
    }
    if !(cs[4] == '.' && cs[5] == 'w' && cs[6] == 'a' && cs[7] == 'l') {
        proof {
            assert forall|id: int| 0 <= id <= 9999 implies name@ != wal_file_name_spec(id) by {
                assert(wal_file_name_spec(id)[4] == '.');
                assert(wal_file_name_spec(id)[5] == 'w');
                assert(wal_file_name_spec(id)[6] == 'a');
                assert(wal_file_name_spec(id)[7] == 'l');
            }
        }
        return None;
    }
    let d0 = dec_value_exec(cs[0]);
    let d1 = dec_value_exec(cs[1]);
    let d2 = dec_value_exec(cs[2]);
    let d3 = dec_value_exec(cs[3]);
    match (d0, d1, d2, d3) {
        (Some(a), Some(b), Some(c), Some(d)) => {
            let id = a * 1000 + b * 100 + c * 10 + d;
            proof {
                assert(id / 1000 % 10 == a && id / 100 % 10 == b && id / 10 % 10 == c && id % 10
                    == d) by (nonlinear_arith)
                    requires
                        id == a * 1000 + b * 100 + c * 10 + d,
                        a < 10,
                        b < 10,
                        c < 10,
                        d < 10,
                ;
                assert(name@ =~= wal_file_name_spec(id as int));
            }
            Some(id)
        }
        _ => {
            proof {
                assert forall|id: int| 0 <= id <= 9999 implies name@ != wal_file_name_spec(
                    id,
                ) by {
                    let w = wal_file_name_spec(id);
                    assert(w[0] == hex_digit(id / 1000 % 10) && 0 <= id / 1000 % 10 < 10);
                    assert(w[1] == hex_digit(id / 100 % 10) && 0 <= id / 100 % 10 < 10);
                    assert(w[2] == hex_digit(id / 10 % 10) && 0 <= id / 10 % 10 < 10);
                    assert(w[3] == hex_digit(id % 10) && 0 <= id % 10 < 10);
                }
            }
            None
        }
    }
}

/// Whether a file name is a canonical segment file name.
pub fn is_wal_file(name: &str) -> (r: bool)
    ensures
        r == exists|id: int| 0 <= id <= 9999 && name@ == wal_file_name_spec(id),
{
    match parse_wal_file_name(name) {
        Some(id) => {
            proof {
                assert(0 <= id as int <= 9999 && name@ == wal_file_name_spec(id as int));
            }
            true
        }
        None => false,
    }
}

} // verus!
