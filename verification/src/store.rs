//! The log-structured key/value store.
//!
//! Mutations are appended to the active segment; an in-memory key
//! directory maps each live key to the segment id and offset of the record
//! that most recently set it.  The directory is never persisted: it is
//! always the replay of the segment set ([`crate::wal::replay_segs`]), and
//! that equation is the store's central invariant ([`KvStore::wf`]).
//! Opening a data directory reconstructs the directory by replaying the
//! segments in id order; rotation bounds the active segment; compaction
//! merges all sealed segments into one that holds only live records.
//!
//! The store keeps its segments in memory and records every change it
//! makes to them as a [`DiskOp`]; the unverified edge that owns the actual
//! files applies those operations in order to keep the directory durable.

use vstd::map::*;
use vstd::prelude::*;

use crate::chars::{chars_eq, chars_to_string, clone_chars, string_to_chars};
use crate::error::Error;
use crate::record::{Record, RecordModel, encode_record, parse_record_at, spec_encode, spec_parse};
use crate::record::lemma_parse_props;
use crate::wal::{
    KeyDecision, LiveEntry, Segment, apply_record, decide, lemma_push_empty_segment,
    lemma_reach_extend, lemma_reach_ge, lemma_reach_linear, lemma_replay_append,
    lemma_replay_decide, lemma_replay_end_ge, lemma_replay_segs_valid, lemma_replay_take,
    put_at, reach, rec_count, replay_end, replay_from, replay_segs,
};

verus! {

/// The rotation threshold: the active segment is sealed once it holds this
/// many records.
pub const ROTATE_RECORDS: usize = 100;

/// The compaction threshold: rotation compacts first when more than this
/// many segments exist.
pub const COMPACT_SEGMENTS: usize = 5;

/// Where a key's live record sits: the segment and the offset of the
/// record that most recently set it.
#[derive(Clone, Copy, Debug)]
pub struct ValueInfo {
    pub file_id: u32,
    pub file_offset: u64,
}

/// A change the store has made to its in-memory segments, to be mirrored
/// to the data directory by the caller that owns the actual files.
#[derive(Debug)]
pub enum DiskOp {
    /// Create an empty segment file with this id.
    CreateSegment(u32),
    /// Append these characters to the segment file with this id.
    AppendSegment(u32, Vec<char>),
    /// Delete the segment file with this id.
    RemoveSegment(u32),
}

/// The mathematical value of a [`DiskOp`].
pub enum DiskOpModel {
    Create(u32),
    Append(u32, Seq<char>),
    Remove(u32),
}

impl View for DiskOp {
    type V = DiskOpModel;

    open spec fn view(&self) -> DiskOpModel {
        match self {
            DiskOp::CreateSegment(id) => DiskOpModel::Create(*id),
            DiskOp::AppendSegment(id, text) => DiskOpModel::Append(*id, text@),
            DiskOp::RemoveSegment(id) => DiskOpModel::Remove(*id),
        }
    }
}

/// The largest segment id the file-name convention carries: four decimal
/// digits.
pub const MAX_SEGMENT_ID: u32 = 9999;

/// Segment ids strictly increase from oldest to newest.
pub open spec fn segs_sorted(s: Seq<Segment>) -> bool {
    forall|i: int, j: int| 0 <= i < j < s.len() ==> s[i].id < s[j].id
}

/// The mathematical content of the executable key directory.
pub open spec fn dir_view(kd: Seq<(Vec<char>, ValueInfo)>) -> Map<Seq<char>, (u32, int)>
    decreases kd.len(),
{
    if kd.len() == 0 {
        Map::empty()
    } else {
        dir_view(kd.drop_last()).insert(
            kd.last().0@,
            (kd.last().1.file_id, kd.last().1.file_offset as int),
        )
    }
}

/// No key occurs twice in the executable directory.
pub open spec fn dir_keys_unique(kd: Seq<(Vec<char>, ValueInfo)>) -> bool {
    forall|i: int, j: int| 0 <= i < j < kd.len() ==> kd[i].0@ != kd[j].0@
}

/// The pointer part of a directory model: where each live record sits.
pub open spec fn ptr_view(m: Map<Seq<char>, LiveEntry>) -> Map<Seq<char>, (u32, int)> {
    m.map_values(|e: LiveEntry| (e.seg_id, e.off))
}

/// The value part of a directory model: what each key maps to.
pub open spec fn kv_of(m: Map<Seq<char>, LiveEntry>) -> Map<Seq<char>, Seq<char>> {
    m.map_values(|e: LiveEntry| e.value)
}

/// During compaction: the keys already copied to the merged segment.
/// These are the keys whose live record lies in one of the first `t`
/// sealed segments, or in segment `sid` strictly before offset `off`.
pub open spec fn merge_copied(
    m0: Map<Seq<char>, LiveEntry>,
    segs: Seq<Segment>,
    t: int,
    sid: u32,
    off: int,
) -> Set<Seq<char>> {
    Set::new(
        |k: Seq<char>|
            m0.contains_key(k) && ((exists|i: int|
                0 <= i < t && #[trigger] segs[i].id == m0[k].seg_id) || (m0[k].seg_id == sid
                && m0[k].off < off)),
    )
}

/// Compaction can run: the active id is positive and the merged slot
/// (one below it) is free.
pub open spec fn merge_possible(s: KvStore) -> bool {
    s.active_file_id > 0 && (forall|i: int|
        0 <= i < s.segments@.len() ==> s.segments@[i].id != s.active_file_id - 1)
}

/// The id space is used up: rotation would need an id beyond the largest
/// the file-name convention carries.
pub open spec fn id_exhausted(s: KvStore) -> bool {
    s.active_file_id > MAX_SEGMENT_ID - 2
}

/// A mutation on `pre` first seals the active segment: it already holds
/// the rotation threshold of records.
pub open spec fn will_rotate(pre: KvStore) -> bool {
    pre.active_records >= ROTATE_RECORDS
}

/// A mutation on `pre` compacts before rotating: the segment count is
/// over the compaction threshold and the merged slot is free.
pub open spec fn will_compact(pre: KvStore) -> bool {
    will_rotate(pre) && pre.segments@.len() > COMPACT_SEGMENTS && merge_possible(pre)
}

/// What one successful mutation does to the segment set: if the active
/// segment is full it is sealed (compacting first when due) and a fresh
/// one two ids later becomes active; then exactly the one record is
/// appended at the end of the active segment, whose offset is that
/// segment's length just before the append.
pub open spec fn mutation_effect(pre: KvStore, post: KvStore, r: RecordModel) -> bool {
    let rotated = will_rotate(pre);
    let base: Seq<char> = if rotated {
        Seq::empty()
    } else {
        pre.segments@.last().data@
    };
    &&& post.active_file_id as int == pre.active_file_id + (if rotated {
        2int
    } else {
        0int
    })
    &&& post.active_records as int == (if rotated {
        1int
    } else {
        pre.active_records + 1
    })
    &&& post.segments@.len() as int == (if !rotated {
        pre.segments@.len() as int
    } else if will_compact(pre) {
        3int
    } else {
        pre.segments@.len() as int + 1
    })
    &&& (will_compact(pre) ==> post.segments@[0].id == pre.active_file_id - 1)
    &&& post.segments@.last().id == post.active_file_id
    &&& post.segments@.last().data@ == base + spec_encode(r)
    &&& (!rotated ==> post.segments@.drop_last() == pre.segments@.drop_last())
    &&& (rotated && !will_compact(pre) ==> post.segments@.drop_last() == pre.segments@)
    &&& (will_compact(pre) ==> post.segments@[1] == pre.segments@.last())
    &&& (forall|i: int| 0 <= i < pre.pending@.len() ==> post.pending@[i] == pre.pending@[i])
    &&& post.pending@.last()@ == DiskOpModel::Append(post.active_file_id, spec_encode(r))
    &&& (!rotated ==> post.pending@.len() == pre.pending@.len() + 1)
    &&& (rotated && !will_compact(pre) ==> post.pending@.len() == pre.pending@.len() + 2
        && post.pending@[pre.pending@.len() as int]@ == DiskOpModel::Create(
        post.active_file_id,
    ))
    &&& (will_compact(pre) ==> post.pending@.len() > pre.pending@.len())
}

// ---------------------------------------------------------------------------
// Directory lemmas
// ---------------------------------------------------------------------------

/// A key is in the directory view exactly when some entry holds it.
pub proof fn lemma_dir_view_contains(kd: Seq<(Vec<char>, ValueInfo)>, k: Seq<char>)
    ensures
        dir_view(kd).contains_key(k) == exists|i: int| 0 <= i < kd.len() && kd[i].0@ == k,
    decreases kd.len(),
{
    if kd.len() == 0 {
    } else {
        lemma_dir_view_contains(kd.drop_last(), k);
        if kd.last().0@ == k {
            assert(kd[kd.len() - 1].0@ == k);
        } else {
            assert forall|i: int| 0 <= i < kd.len() && kd[i].0@ == k implies
                dir_view(kd).contains_key(k) by {
                assert(kd.drop_last()[i] == kd[i]);
            }
            if exists|i: int| 0 <= i < kd.drop_last().len() && kd.drop_last()[i].0@ == k {
                let i = choose|i: int| 0 <= i < kd.drop_last().len() && kd.drop_last()[i].0@ == k;
                assert(kd[i].0@ == k);
            }
        }
    }
}

/// The directory view maps a key to the entry that holds it.
pub proof fn lemma_dir_view_at(kd: Seq<(Vec<char>, ValueInfo)>, k: Seq<char>, i: int)
    requires
        dir_keys_unique(kd),
        0 <= i < kd.len(),
        kd[i].0@ == k,
    ensures
        dir_view(kd).contains_key(k),
        dir_view(kd)[k] == (kd[i].1.file_id, kd[i].1.file_offset as int),
    decreases kd.len(),
{
    if i == kd.len() - 1 {
    } else {
        assert(dir_keys_unique(kd.drop_last())) by {
            assert forall|a: int, b: int| 0 <= a < b < kd.drop_last().len() implies
                kd.drop_last()[a].0@ != kd.drop_last()[b].0@ by {
                assert(kd.drop_last()[a] == kd[a] && kd.drop_last()[b] == kd[b]);
            }
        }
        assert(kd.drop_last()[i] == kd[i]);
        lemma_dir_view_at(kd.drop_last(), k, i);
        assert(kd.last().0@ != k);
    }
}

/// Replacing the entry that holds a key updates the view at that key.
pub proof fn lemma_dir_view_set(
    kd: Seq<(Vec<char>, ValueInfo)>,
    i: int,
    x: (Vec<char>, ValueInfo),
)
    requires
        dir_keys_unique(kd),
        0 <= i < kd.len(),
        x.0@ == kd[i].0@,
    ensures
        dir_view(kd.update(i, x)) == dir_view(kd).insert(
            x.0@,
            (x.1.file_id, x.1.file_offset as int),
        ),
        dir_keys_unique(kd.update(i, x)),
    decreases kd.len(),
{
    let kd2 = kd.update(i, x);
    assert(dir_keys_unique(kd2)) by {
        assert forall|a: int, b: int| 0 <= a < b < kd2.len() implies kd2[a].0@ != kd2[b].0@ by {
            assert(kd2[a].0@ == kd[a].0@ && kd2[b].0@ == kd[b].0@);
        }
    }
    if i == kd.len() - 1 {
        assert(kd2.drop_last() =~= kd.drop_last());
        assert(kd2.last() == x);
        assert(dir_view(kd2) =~= dir_view(kd).insert(x.0@, (x.1.file_id, x.1.file_offset as int)));
    } else {
        assert(dir_keys_unique(kd.drop_last())) by {
            assert forall|a: int, b: int| 0 <= a < b < kd.drop_last().len() implies
                kd.drop_last()[a].0@ != kd.drop_last()[b].0@ by {
                assert(kd.drop_last()[a] == kd[a] && kd.drop_last()[b] == kd[b]);
            }
        }
        assert(kd.drop_last()[i] == kd[i]);
        lemma_dir_view_set(kd.drop_last(), i, x);
        assert(kd2.drop_last() =~= kd.drop_last().update(i, x));
        assert(kd2.last() == kd.last());
        assert(kd.last().0@ != x.0@);
        assert(dir_view(kd2) =~= dir_view(kd).insert(x.0@, (x.1.file_id, x.1.file_offset as int)));
    }
}

/// Removing the entry that holds a key removes the key from the view.
pub proof fn lemma_dir_view_remove(kd: Seq<(Vec<char>, ValueInfo)>, i: int)
    requires
        dir_keys_unique(kd),
        0 <= i < kd.len(),
    ensures
        dir_view(kd.remove(i)) == dir_view(kd).remove(kd[i].0@),
        dir_keys_unique(kd.remove(i)),
    decreases kd.len(),
{
    let k = kd[i].0@;
    let kd2 = kd.remove(i);
    assert(dir_keys_unique(kd2)) by {
        assert forall|a: int, b: int| 0 <= a < b < kd2.len() implies kd2[a].0@ != kd2[b].0@ by {
            let a0 = if a < i { a } else { a + 1 };
            let b0 = if b < i { b } else { b + 1 };
            assert(kd2[a].0@ == kd[a0].0@ && kd2[b].0@ == kd[b0].0@);
        }
    }
    if i == kd.len() - 1 {
        assert(kd2 =~= kd.drop_last());
        assert(!dir_view(kd.drop_last()).contains_key(k)) by {
            lemma_dir_view_contains(kd.drop_last(), k);
            if exists|a: int| 0 <= a < kd.drop_last().len() && kd.drop_last()[a].0@ == k {
                let a = choose|a: int| 0 <= a < kd.drop_last().len() && kd.drop_last()[a].0@ == k;
                assert(kd[a].0@ == k && kd[i].0@ == k);
            }
        }
        assert(dir_view(kd2) =~= dir_view(kd).remove(k));
    } else {
        assert(dir_keys_unique(kd.drop_last())) by {
            assert forall|a: int, b: int| 0 <= a < b < kd.drop_last().len() implies
                kd.drop_last()[a].0@ != kd.drop_last()[b].0@ by {
                assert(kd.drop_last()[a] == kd[a] && kd.drop_last()[b] == kd[b]);
            }
        }
        assert(kd.drop_last()[i] == kd[i]);
        lemma_dir_view_remove(kd.drop_last(), i);
        assert(kd2.drop_last() =~= kd.drop_last().remove(i));
        assert(kd2.last() == kd.last());
        assert(kd.last().0@ != k);
        assert(dir_view(kd2) =~= dir_view(kd).remove(k));
    }
}

/// After compaction, replaying the merged segment followed by the old
/// active segment yields exactly the old directory with every
/// sealed-segment entry repointed into the merged segment.
proof fn lemma_merge_final(
    old_segs: Seq<Segment>,
    gm: Map<Seq<char>, LiveEntry>,
    merged: Segment,
    k: Seq<char>,
)
    requires
        old_segs.len() >= 1,
        segs_sorted(old_segs),
        forall|i: int| 0 <= i < old_segs.len() ==> old_segs[i].id != merged.id,
        merged.id < old_segs.last().id,
        replay_from(Map::empty(), merged.id, merged.data@, 0) == gm,
        forall|kk: Seq<char>| #[trigger] gm.contains_key(kk) ==> replay_segs(
            old_segs,
        ).contains_key(kk) && gm[kk].seg_id == merged.id && gm[kk].value == replay_segs(
            old_segs,
        )[kk].value,
        gm.dom() == merge_copied(
            replay_segs(old_segs),
            old_segs,
            old_segs.len() - 1,
            merged.id,
            0,
        ),
    ensures
        ({
            let m0 = replay_segs(old_segs);
            let fin = replay_segs(seq![merged, old_segs.last()]);
            let patched = m0.union_prefer_right(gm);
            fin.contains_key(k) == patched.contains_key(k) && (patched.contains_key(k)
                ==> fin[k] == patched[k])
        }),
{
    let m0 = replay_segs(old_segs);
    let active = old_segs.last();
    let aid = active.id;
    let ad = active.data@;
    let msealed = replay_segs(old_segs.drop_last());
    let two = seq![merged, active];
    assert(two.drop_last() =~= seq![merged]);
    assert(two.last() == active);
    assert(seq![merged].drop_last() =~= Seq::<Segment>::empty());
    assert(seq![merged].last() == merged);
    assert(replay_segs(Seq::<Segment>::empty()) == Map::<Seq<char>, LiveEntry>::empty());
    assert(replay_segs(seq![merged]) == replay_from(
        Map::<Seq<char>, LiveEntry>::empty(),
        merged.id,
        merged.data@,
        0,
    ));
    assert(replay_segs(seq![merged]) == gm);
    let fin = replay_segs(two);
    assert(fin == replay_from(gm, aid, ad, 0));
    assert(m0 == replay_from(msealed, aid, ad, 0));
    lemma_replay_decide(gm, aid, ad, 0, k);
    lemma_replay_decide(msealed, aid, ad, 0, k);
    let patched = m0.union_prefer_right(gm);
    match decide(ad, 0, k) {
        KeyDecision::SetTo(o, v) => {
            assert(m0.contains_key(k) && m0[k] == (LiveEntry { seg_id: aid, off: o, value: v }));
            assert(!gm.contains_key(k)) by {
                if gm.contains_key(k) {
                    assert(merge_copied(m0, old_segs, old_segs.len() - 1, merged.id, 0).contains(
                        k,
                    ));
                    if exists|i: int|
                        0 <= i < old_segs.len() - 1 && #[trigger] old_segs[i].id == m0[k].seg_id {
                        let i = choose|i: int|
                            0 <= i < old_segs.len() - 1 && #[trigger] old_segs[i].id
                                == m0[k].seg_id;
                        assert(old_segs[i].id < old_segs[old_segs.len() - 1].id);
                    }
                }
            }
            assert(patched[k] == m0[k]);
        }
        KeyDecision::Erased => {
            assert(!m0.contains_key(k));
            assert(!gm.contains_key(k));
            assert(!patched.contains_key(k));
        }
        KeyDecision::Pass => {
            assert(m0.contains_key(k) == msealed.contains_key(k));
            assert(fin.contains_key(k) == gm.contains_key(k));
            if msealed.contains_key(k) {
                assert(m0[k] == msealed[k]);
                lemma_replay_segs_valid(old_segs.drop_last(), k);
                let i = choose|i: int|
                    0 <= i < old_segs.drop_last().len() && #[trigger] old_segs.drop_last()[i].id
                        == msealed[k].seg_id && reach(old_segs.drop_last()[i].data@, 0,
                    msealed[k].off) && put_at(
                        old_segs.drop_last()[i].data@,
                        msealed[k].off,
                        k,
                        msealed[k].value,
                    );
                assert(old_segs[i].id == m0[k].seg_id);
                assert(merge_copied(m0, old_segs, old_segs.len() - 1, merged.id, 0).contains(k));
                assert(gm.contains_key(k));
                assert(fin[k] == gm[k]);
                assert(patched[k] == gm[k]);
            } else {
                assert(!m0.contains_key(k));
                assert(!gm.contains_key(k));
                assert(!fin.contains_key(k));
                assert(!patched.contains_key(k));
            }
        }
    }
}

// ---------------------------------------------------------------------------
// Executable directory helpers
// ---------------------------------------------------------------------------

/// Find the entry holding a key.
fn dir_find(kd: &Vec<(Vec<char>, ValueInfo)>, key: &Vec<char>) -> (r: Option<usize>)
    requires
        dir_keys_unique(kd@),
    ensures
        match r {
            Some(i) => {
                &&& i < kd@.len()
                &&& kd@[i as int].0@ == key@
                &&& dir_view(kd@).contains_key(key@)
                &&& dir_view(kd@)[key@] == (
                    kd@[i as int].1.file_id,
                    kd@[i as int].1.file_offset as int,
                )
            }
            None => !dir_view(kd@).contains_key(key@),
        },
{
    let mut i: usize = 0;
    while i < kd.len()
        invariant
            i <= kd@.len(),
            dir_keys_unique(kd@),
            forall|j: int| 0 <= j < i ==> kd@[j].0@ != key@,
        decreases kd@.len() - i,
    {
        if chars_eq(&kd[i].0, key) {
            proof {
                lemma_dir_view_at(kd@, key@, i as int);
            }
            return Some(i);
        }
        i += 1;
    }
    proof {
        lemma_dir_view_contains(kd@, key@);
    }
    None
}

/// Insert or replace a key's entry.
fn dir_upsert(kd: &mut Vec<(Vec<char>, ValueInfo)>, key: Vec<char>, info: ValueInfo)
    requires
        dir_keys_unique(old(kd)@),
    ensures
        dir_keys_unique(final(kd)@),
        dir_view(final(kd)@) == dir_view(old(kd)@).insert(
            key@,
            (info.file_id, info.file_offset as int),
        ),
{
    let found = dir_find(kd, &key);
    match found {
        Some(i) => {
            let ghost kd0 = kd@;
            proof {
                lemma_dir_view_set(kd0, i as int, (key, info));
            }
            kd.set(i, (key, info));
        }
        None => {
            let ghost kd0 = kd@;
            proof {
                lemma_dir_view_contains(kd0, key@);
            }
            kd.push((key, info));
            proof {
                assert(kd@.drop_last() =~= kd0);
                assert forall|a: int, b: int| 0 <= a < b < kd@.len() implies
                    kd@[a].0@ != kd@[b].0@ by {
                    if b < kd@.len() - 1 {
                        assert(kd@[a] == kd0[a] && kd@[b] == kd0[b]);
                    } else {
                        assert(kd@[a] == kd0[a]);
                        assert(kd@[b].0@ == key@);
                    }
                }
            }
        }
    }
}

/// Remove a key's entry, if present.
fn dir_remove_key(kd: &mut Vec<(Vec<char>, ValueInfo)>, key: &Vec<char>)
    requires
        dir_keys_unique(old(kd)@),
    ensures
        dir_keys_unique(final(kd)@),
        dir_view(final(kd)@) == dir_view(old(kd)@).remove(key@),
{
    let found = dir_find(kd, key);
    match found {
        Some(i) => {
            let ghost kd0 = kd@;
            proof {
                lemma_dir_view_remove(kd0, i as int);
            }
            kd.remove(i);
        }
        None => {
            proof {
                assert(dir_view(kd@).remove(key@) =~= dir_view(kd@));
            }
        }
    }
}

// ---------------------------------------------------------------------------
// The store
// ---------------------------------------------------------------------------

/// The key/value store: the in-memory segment set, the key directory that
/// indexes it, and the disk operations not yet mirrored to the data
/// directory.
pub struct KvStore {
    pub segments: Vec<Segment>,
    pub keydir: Vec<(Vec<char>, ValueInfo)>,
    pub active_file_id: u32,
    pub active_records: usize,
    pub pending: Vec<DiskOp>,
}

impl KvStore {
    /// The replayed directory model of the current segments.
    pub open spec fn model(self) -> Map<Seq<char>, LiveEntry> {
        replay_segs(self.segments@)
    }

    /// The key-to-value map this store represents.
    pub open spec fn kv(self) -> Map<Seq<char>, Seq<char>> {
        kv_of(self.model())
    }

    /// Well-formedness: segments are ordered, the newest is active and
    /// ends at a record boundary, the record counter is exact, and the key
    /// directory is precisely the replay of the segments.
    pub open spec fn wf(self) -> bool {
        &&& self.segments@.len() >= 1
        &&& segs_sorted(self.segments@)
        &&& self.active_file_id == self.segments@.last().id
        &&& replay_end(self.segments@.last().data@, 0) == self.segments@.last().data@.len()
        &&& self.active_records as nat == rec_count(self.segments@.last().data@, 0)
        &&& dir_keys_unique(self.keydir@)
        &&& dir_view(self.keydir@) == ptr_view(self.model())
    }

    /// Restore a store from the segment files of a data directory,
    /// replaying them in order to rebuild the key directory.  A truncated
    /// or corrupt tail of the newest segment is ignored.  If no segment
    /// exists, segment `0` is created.  Segment ids must be distinct; a
    /// duplicate is a `Storage` error.
    pub fn open(segments: Vec<Segment>) -> (res: Result<KvStore, Error>)
        ensures
            match res {
                Ok(store) => {
                    &&& store.wf()
                    &&& (exists|p: Seq<Segment>|
                        #![auto]
                        p.to_multiset() == segments@.to_multiset() && segs_sorted(p)
                            && store.model() == replay_segs(p))
                    &&& (segments@.len() > 0 ==> (forall|i: int|
                        0 <= i < segments@.len() ==> segments@[i].id <= store.active_file_id)
                        && (exists|i: int|
                        0 <= i < segments@.len() && segments@[i].id == store.active_file_id))
                    &&& (segs_sorted(segments@) ==> {
                        &&& store.kv() == kv_of(replay_segs(segments@))
                        &&& store.model() == replay_segs(segments@)
                        &&& (segments@.len() > 0 ==> store.active_file_id
                            == segments@.last().id
                            && store.segments@.len() == segments@.len())
                        &&& (segments@.len() == 0 ==> store.active_file_id == 0
                            && store.segments@.len() == 1 && store.segments@[0].id == 0
                            && store.segments@[0].data@.len() == 0 && store.pending@ == seq![
                            DiskOp::CreateSegment(0u32),
                        ])
                        &&& (segments@.len() > 0 ==> store.pending@ == Seq::<DiskOp>::empty())
                    })
                }
                Err(e) => e == Error::Storage && !segs_sorted(segments@),
            },
    {
        let ghost input = segments@;
        let mut segs = segments;
        let sorted_in = check_sorted(&segs);
        if !sorted_in {
            match sort_segments(segs) {
                Ok(v) => {
                    segs = v;
                }
                Err(e) => {
                    return Err(e);
                }
            }
        }
        let mut pending: Vec<DiskOp> = Vec::new();
        let ghost post_sort = segs@;
        let created_first = segs.len() == 0;
        if created_first {
            segs.push(Segment { id: 0, data: Vec::new() });
            pending.push(DiskOp::CreateSegment(0));
        }
        let ghost orig = segs@;

        // Replay every segment in order, oldest first.
        let mut keydir: Vec<(Vec<char>, ValueInfo)> = Vec::new();
        let mut t: usize = 0;
        let mut last_stop: usize = 0;
        let mut last_cnt: usize = 0;
        while t < segs.len()
            invariant
                t <= segs@.len(),
                segs@ == orig,
                dir_keys_unique(keydir@),
                dir_view(keydir@) == ptr_view(replay_segs(segs@.take(t as int))),
                t > 0 ==> last_stop as int == replay_end(segs@[t - 1].data@, 0)
                    && last_stop <= segs@[t - 1].data@.len()
                    && last_cnt as nat == rec_count(segs@[t - 1].data@, 0),
            decreases segs@.len() - t,
        {
            proof {
                assert(segs@.take(t as int + 1).drop_last() =~= segs@.take(t as int));
                assert(segs@.take(t as int + 1).last() == segs@[t as int]);
            }
            let (kd2, stop, cnt) = replay_segment(
                keydir,
                &segs[t],
                Ghost(replay_segs(segs@.take(t as int))),
            );
            keydir = kd2;
            last_stop = stop;
            last_cnt = cnt;
            t += 1;
        }
        proof {
            assert(segs@.take(segs@.len() as int) =~= segs@);
        }

        // Ignore the partial tail of the newest (active) segment.
        let active_opt = segs.pop();
        let mut active = match active_opt {
            Some(a) => a,
            None => {
                proof {
                    assert(false);
                }
                return Err(Error::Storage);
            }
        };
        let ghost pref = segs@;
        let ghost d_old = active.data@;
        proof {
            lemma_replay_end_ge(d_old, 0);
            lemma_replay_take(replay_segs(pref), active.id, d_old, 0, last_stop as int);
        }
        active.data.truncate(last_stop);
        let active_id = active.id;
        let active_cnt = last_cnt;
        segs.push(active);
        proof {
            assert(segs@.drop_last() =~= pref);
            assert(replay_segs(segs@) == replay_segs(orig));
            assert(segs_sorted(segs@)) by {
                assert forall|i: int, j: int| 0 <= i < j < segs@.len() implies
                    segs@[i].id < segs@[j].id by {
                    assert(segs@[i].id == orig[i].id && segs@[j].id == orig[j].id);
                }
            }
        }

        let store = KvStore {
            segments: segs,
            keydir,
            active_file_id: active_id,
            active_records: active_cnt,
            pending,
        };
        proof {
            if input.len() == 0 {
                broadcast use vstd::seq_lib::group_to_multiset_ensures;
                let p0 = Seq::<Segment>::empty();
                assert(orig =~= seq![orig[0]]);
                assert(orig[0].data@.len() == 0);
                assert(orig.drop_last() =~= Seq::<Segment>::empty());
                assert(replay_segs(orig.drop_last()) =~= Map::<Seq<char>, LiveEntry>::empty());
                assert(replay_segs(orig) =~= Map::<Seq<char>, LiveEntry>::empty());
                assert(replay_segs(p0) =~= Map::<Seq<char>, LiveEntry>::empty());
                assert(input.to_multiset().len() == 0);
                assert(p0.to_multiset().len() == 0);
                assert(p0.to_multiset() =~= input.to_multiset());
                assert(p0.to_multiset() == input.to_multiset() && segs_sorted(p0)
                    && store.model() == replay_segs(p0));
            } else {
                assert(post_sort.to_multiset() == input.to_multiset()) by {
                    if sorted_in {
                        assert(post_sort == input);
                    }
                }
                input.to_multiset_ensures();
                post_sort.to_multiset_ensures();
                if created_first {
                    assert(post_sort.to_multiset().len() == 0);
                    assert(input.len() == 0);
                }
                assert(orig == post_sort);
                assert(orig.to_multiset() == input.to_multiset());
                assert(segs_sorted(orig));
                assert(store.model() == replay_segs(orig));
                // the active id is the largest id the directory held
                orig.to_multiset_ensures();
                assert(store.active_file_id == orig[orig.len() - 1].id);
                assert forall|i: int| 0 <= i < input.len() implies #[trigger] input[i].id
                    <= store.active_file_id by {
                    assert(input.contains(input[i]));
                    assert(input.to_multiset().count(input[i]) > 0);
                    assert(orig.to_multiset().count(input[i]) > 0);
                    assert(orig.contains(input[i]));
                    let j = choose|j: int| 0 <= j < orig.len() && orig[j] == input[i];
                    if j < orig.len() - 1 {
                        assert(orig[j].id < orig[orig.len() - 1].id);
                    }
                }
                assert(exists|i: int|
                    0 <= i < input.len() && #[trigger] input[i].id == store.active_file_id) by {
                    let last = orig[orig.len() - 1];
                    assert(orig.contains(last));
                    assert(orig.to_multiset().count(last) > 0);
                    assert(input.to_multiset().count(last) > 0);
                    assert(input.contains(last));
                    let i = choose|i: int| 0 <= i < input.len() && input[i] == last;
                    assert(input[i].id == store.active_file_id);
                }
            }
            if segs_sorted(input) {
                if input.len() == 0 {
                    assert(orig =~= seq![orig[0]]);
                    assert(orig[0].data@.len() == 0);
                    assert(replay_segs(orig.drop_last()) =~= Map::<Seq<char>, LiveEntry>::empty());
                    assert(replay_segs(orig) =~= Map::<Seq<char>, LiveEntry>::empty());
                    assert(replay_segs(input) =~= Map::<Seq<char>, LiveEntry>::empty());
                } else {
                    assert(orig == input);
                }
            }
        }
        Ok(store)
    }

    /// The largest segment id present: the one recovery makes active.
    pub fn active_wal_file(segments: &Vec<Segment>) -> (r: Option<u32>)
        ensures
            match r {
                Some(id) => segments@.len() > 0
                    && (exists|i: int| 0 <= i < segments@.len() && segments@[i].id == id)
                    && (forall|i: int| 0 <= i < segments@.len() ==> segments@[i].id <= id),
                None => segments@.len() == 0,
            },
    {
        if segments.len() == 0 {
            return None;
        }
        let mut best: u32 = segments[0].id;
        let mut i: usize = 1;
        while i < segments.len()
            invariant
                1 <= i <= segments@.len(),
                exists|j: int| 0 <= j < i && segments@[j].id == best,
                forall|j: int| 0 <= j < i ==> segments@[j].id <= best,
            decreases segments@.len() - i,
        {
            if segments[i].id > best {
                best = segments[i].id;
            }
            i += 1;
        }
        Some(best)
    }

    /// Look up a key: consult the directory, read the one record it points
    /// at, and return that record's value.
    pub fn get(&mut self, key: String) -> (res: Result<Option<String>, Error>)
        requires
            old(self).wf(),
        ensures
            *final(self) == *old(self),
            match res {
                Ok(opt) => match opt {
                    Some(v) => old(self).kv().contains_key(key@) && v@ == old(self).kv()[key@],
                    None => !old(self).kv().contains_key(key@),
                },
                Err(e) => false,
            },
    {
        let kc = string_to_chars(key.as_str());
        let found = dir_find(&self.keydir, &kc);
        let info = match found {
            None => {
                proof {
                    assert(!ptr_view(self.model()).contains_key(kc@));
                    assert(!self.kv().contains_key(kc@));
                }
                return Ok(None);
            }
            Some(ix) => self.keydir[ix].1,
        };
        proof {
            assert(ptr_view(self.model()).contains_key(kc@));
            assert(self.model().contains_key(kc@));
            lemma_replay_segs_valid(self.segments@, kc@);
        }
        let ghost entry = self.model()[kc@];
        proof {
            assert(info.file_id == entry.seg_id && info.file_offset as int == entry.off);
        }
        // Locate the segment the entry points into.
        let mut si: usize = 0;
        let mut found_seg = false;
        while si < self.segments.len() && !found_seg
            invariant
                si <= self.segments@.len(),
                found_seg ==> si < self.segments@.len()
                    && self.segments@[si as int].id == info.file_id,
                !found_seg ==> forall|j: int| 0 <= j < si ==> self.segments@[j].id != info.file_id,
            decreases self.segments@.len() - si + (if found_seg { 0int } else { 1int }),
        {
            if self.segments[si].id == info.file_id {
                found_seg = true;
            } else {
                si += 1;
            }
        }
        if !found_seg {
            proof {
                let i0 = choose|i: int|
                    0 <= i < self.segments@.len() && #[trigger] self.segments@[i].id
                        == entry.seg_id && reach(self.segments@[i].data@, 0, entry.off)
                        && put_at(self.segments@[i].data@, entry.off, kc@, entry.value);
                assert(false);
            }
            return Err(Error::Storage);
        }
        proof {
            let i0 = choose|i: int|
                0 <= i < self.segments@.len() && #[trigger] self.segments@[i].id == entry.seg_id
                    && reach(self.segments@[i].data@, 0, entry.off)
                    && put_at(self.segments@[i].data@, entry.off, kc@, entry.value);
            assert(segs_sorted(self.segments@));
            if i0 != si as int {
                assert(self.segments@[i0].id == self.segments@[si as int].id);
                if i0 < si as int {
                    assert(self.segments@[i0].id < self.segments@[si as int].id);
                } else {
                    assert(self.segments@[si as int].id < self.segments@[i0].id);
                }
            }
            assert(put_at(self.segments@[si as int].data@, entry.off, kc@, entry.value));
            lemma_parse_props(self.segments@[si as int].data@, entry.off);
        }
        let seg_len = self.segments[si].data.len();
        if info.file_offset >= (seg_len as u64) {
            proof {
                assert(false);
            }
            return Err(Error::Storage);
        }
        let off = info.file_offset as usize;
        proof {
            assert(off as int == entry.off);
        }
        match parse_record_at(&self.segments[si].data, off) {
            Some((rec, _end)) => {
                match rec {
                    Record::Put(_k2, v) => {
                        proof {
                            assert(rec@ == RecordModel::Put(kc@, entry.value));
                            assert(v@ == entry.value);
                            assert(self.kv()[kc@] == entry.value);
                        }
                        Ok(Some(chars_to_string(&v)))
                    }
                    Record::Del(_) => {
                        proof {
                            assert(false);
                        }
                        Err(Error::Storage)
                    }
                }
            }
            None => {
                proof {
                    assert(false);
                }
                Err(Error::Storage)
            }
        }
    }

    /// Append one record to the active segment and index it: the shared
    /// tail of `set` and `remove`.
    fn append_record(&mut self, rec: Record)
        requires
            old(self).wf(),
        ensures
            final(self).wf(),
            final(self).model() == apply_record(
                old(self).model(),
                old(self).active_file_id,
                old(self).segments@.last().data@.len() as int,
                rec@,
            ),
            final(self).active_file_id == old(self).active_file_id,
            final(self).segments@.len() == old(self).segments@.len(),
            final(self).active_records == old(self).active_records + 1,
            final(self).segments@.last().id == old(self).segments@.last().id,
            final(self).segments@.last().data@ == old(self).segments@.last().data@
                + spec_encode(rec@),
            forall|i: int| 0 <= i < old(self).segments@.len() - 1 ==> final(self).segments@[i]
                == old(self).segments@[i],
            final(self).pending@.len() == old(self).pending@.len() + 1,
            forall|i: int|
                0 <= i < old(self).pending@.len() ==> final(self).pending@[i]
                    == old(self).pending@[i],
            final(self).pending@.last()@ == DiskOpModel::Append(
                old(self).active_file_id,
                spec_encode(rec@),
            ),
    {
        let enc = encode_record(&rec);
        let enc2 = clone_chars(&enc);
        let ghost old_segs = self.segments@;
        let ghost m_pre = replay_segs(old_segs.drop_last());
        let active_opt = self.segments.pop();
        let mut active = match active_opt {
            Some(a) => a,
            None => {
                proof {
                    assert(false);
                }
                return ;
            }
        };
        let ghost d_old = active.data@;
        let off = active.data.len();
        proof {
            lemma_replay_append(m_pre, active.id, d_old, 0, rec@);
            crate::wal::lemma_rec_count_bound(d_old + spec_encode(rec@), 0);
        }
        let mut enc_move = enc;
        active.data.append(&mut enc_move);
        let new_len = active.data.len();
        proof {
            assert(new_len == d_old.len() + spec_encode(rec@).len());
        }
        let aid = active.id;
        self.segments.push(active);
        self.pending.push(DiskOp::AppendSegment(aid, enc2));
        proof {
            assert(self.segments@.drop_last() =~= old_segs.drop_last());
            assert(self.segments@.last().id == aid);
            assert(self.segments@.last().data@ == d_old + spec_encode(rec@));
            assert(replay_segs(self.segments@) == apply_record(
                replay_segs(old_segs),
                aid,
                d_old.len() as int,
                rec@,
            ));
            assert(segs_sorted(self.segments@)) by {
                assert forall|i: int, j: int| 0 <= i < j < self.segments@.len() implies
                    self.segments@[i].id < self.segments@[j].id by {
                    assert(self.segments@[i].id == old_segs[i].id);
                    assert(self.segments@[j].id == old_segs[j].id);
                }
            }
            assert(self.active_records as nat == rec_count(d_old, 0));
        }
        self.active_records = self.active_records + 1;
        let ghost m_old = replay_segs(old_segs);
        match rec {
            Record::Put(k, _v) => {
                let ghost kview = k@;
                dir_upsert(
                    &mut self.keydir,
                    k,
                    ValueInfo { file_id: aid, file_offset: off as u64 },
                );
                proof {
                    assert(ptr_view(self.model()) =~= ptr_view(m_old).insert(
                        kview,
                        (aid, off as int),
                    ));
                }
            }
            Record::Del(k) => {
                dir_remove_key(&mut self.keydir, &k);
                proof {
                    assert(ptr_view(self.model()) =~= ptr_view(m_old).remove(k@));
                }
            }
        }
    }

    /// Seal the active segment and start a new one two ids later; run
    /// compaction first when too many segments have accumulated.  Fails
    /// only when no id is left inside the four-digit file-name space.
    fn rotate(&mut self) -> (res: Result<(), Error>)
        requires
            old(self).wf(),
        ensures
            final(self).wf(),
            match res {
                Ok(()) => {
                    let compacted = old(self).segments@.len() > COMPACT_SEGMENTS
                        && merge_possible(*old(self));
                    &&& final(self).kv() == old(self).kv()
                    &&& final(self).active_records == 0
                    &&& final(self).active_file_id as int == old(self).active_file_id + 2
                    &&& final(self).segments@.len() as int == (if compacted {
                        3int
                    } else {
                        old(self).segments@.len() as int + 1
                    })
                    &&& (compacted ==> final(self).segments@[0].id == old(self).active_file_id
                        - 1)
                    &&& (!compacted ==> final(self).model() == old(self).model())
                    &&& final(self).segments@.last().id == final(self).active_file_id
                    &&& final(self).segments@.last().data@ == Seq::<char>::empty()
                    &&& (!compacted ==> final(self).segments@.drop_last() == old(self).segments@)
                    &&& (compacted ==> final(self).segments@[1] == old(self).segments@.last())
                    &&& (forall|i: int|
                        0 <= i < old(self).pending@.len()
                            ==> final(self).pending@[i] == old(self).pending@[i])
                    &&& final(self).pending@.last()@ == DiskOpModel::Create(
                        final(self).active_file_id,
                    )
                    &&& (!compacted ==> final(self).pending@.len() == old(self).pending@.len()
                        + 1)
                    &&& (compacted ==> final(self).pending@.len() > old(self).pending@.len() + 1)
                }
                Err(e) => e == Error::Storage && final(self).kv() == old(self).kv()
                    && id_exhausted(*old(self)),
            },
    {
        if self.segments.len() > COMPACT_SEGMENTS {
            match self.merge() {
                Ok(()) => {}
                Err(e) => {
                    return Err(e);
                }
            }
        }
        if self.active_file_id > MAX_SEGMENT_ID - 2 {
            return Err(Error::Storage);
        }
        let new_id = self.active_file_id + 2;
        let ghost old_segs = self.segments@;
        self.segments.push(Segment { id: new_id, data: Vec::new() });
        self.pending.push(DiskOp::CreateSegment(new_id));
        self.active_file_id = new_id;
        self.active_records = 0;
        proof {
            lemma_push_empty_segment(old_segs, self.segments@.last());
            assert(self.segments@.drop_last() =~= old_segs);
            assert(replay_segs(self.segments@) == replay_segs(old_segs));
            assert(segs_sorted(self.segments@)) by {
                assert forall|i: int, j: int| 0 <= i < j < self.segments@.len() implies
                    self.segments@[i].id < self.segments@[j].id by {
                    assert(self.segments@[i].id == old_segs[i].id);
                    if j < self.segments@.len() - 1 {
                        assert(self.segments@[j].id == old_segs[j].id);
                    } else {
                        if i < old_segs.len() - 1 {
                            assert(old_segs[i].id < old_segs[old_segs.len() - 1].id);
                        }
                    }
                }
            }
            assert(self.segments@.last().data@.len() == 0);
            assert(replay_end(self.segments@.last().data@, 0) == 0);
            assert(rec_count(self.segments@.last().data@, 0) == 0);
        }
        Ok(())
    }

    /// Set or replace `key` to `value`: append a set record to the active
    /// segment (rotating it first if full, compacting first when due) and
    /// point the directory at the record's offset, which is the active
    /// segment's length just before the append.  Fails only when rotation
    /// is due and the four-digit id space is used up.
    #[verifier::spinoff_prover]
    #[verifier::rlimit(100)]
    pub fn set(&mut self, key: String, value: String) -> (res: Result<(), Error>)
        requires
            old(self).wf(),
        ensures
            final(self).wf(),
            match res {
                Ok(()) => {
                    let entry = LiveEntry {
                        seg_id: final(self).active_file_id,
                        off: (if will_rotate(*old(self)) {
                            0int
                        } else {
                            old(self).segments@.last().data@.len() as int
                        }),
                        value: value@,
                    };
                    &&& final(self).kv() == old(self).kv().insert(key@, value@)
                    &&& mutation_effect(*old(self), *final(self), RecordModel::Put(key@, value@))
                    &&& final(self).model().contains_key(key@)
                    &&& final(self).model()[key@] == entry
                    &&& (!will_compact(*old(self)) ==> final(self).model() == old(
                        self,
                    ).model().insert(key@, entry))
                }
                Err(e) => e == Error::Storage && final(self).kv() == old(self).kv()
                    && will_rotate(*old(self)) && id_exhausted(*old(self)),
            },
    {
        let kc = string_to_chars(key.as_str());
        let vc = string_to_chars(value.as_str());
        if self.active_records >= ROTATE_RECORDS {
            match self.rotate() {
                Ok(()) => {}
                Err(e) => {
                    return Err(e);
                }
            }
        }
        let ghost mid = *self;
        self.append_record(Record::Put(kc, vc));
        proof {
            assert(self.kv() =~= kv_of(mid.model()).insert(key@, value@));
            assert(mid.segments@.last().data@ + spec_encode(RecordModel::Put(key@, value@))
                == self.segments@.last().data@);
            if will_rotate(*old(self)) {
                assert(mid.segments@.last().data@ == Seq::<char>::empty());
                assert(self.segments@.drop_last() =~= mid.segments@.drop_last());
            } else {
                assert(self.segments@.drop_last() =~= old(self).segments@.drop_last());
            }
        }
        Ok(())
    }

    /// Remove `key`: fail with `KeyNotFound` before any write if it is
    /// absent, else append a delete record (rotating and compacting as a
    /// set would) and drop the directory entry.
    #[verifier::spinoff_prover]
    #[verifier::rlimit(100)]
    pub fn remove(&mut self, key: String) -> (res: Result<(), Error>)
        requires
            old(self).wf(),
        ensures
            final(self).wf(),
            match res {
                Ok(()) => {
                    &&& old(self).kv().contains_key(key@)
                    &&& final(self).kv() == old(self).kv().remove(key@)
                    &&& mutation_effect(*old(self), *final(self), RecordModel::Del(key@))
                    &&& !final(self).model().contains_key(key@)
                    &&& (!will_compact(*old(self)) ==> final(self).model() == old(
                        self,
                    ).model().remove(key@))
                }
                Err(e) => final(self).kv() == old(self).kv() && ((e == Error::KeyNotFound
                    && !old(self).kv().contains_key(key@) && *final(self) == *old(self)) || (e
                    == Error::Storage && will_rotate(*old(self)) && id_exhausted(*old(self)))),
            },
            !old(self).kv().contains_key(key@) ==> res == Err::<(), Error>(Error::KeyNotFound),
    {
        let kc = string_to_chars(key.as_str());
        let found = dir_find(&self.keydir, &kc);
        match found {
            None => {
                proof {
                    assert(!ptr_view(self.model()).contains_key(kc@));
                    assert(!self.kv().contains_key(kc@));
                }
                return Err(Error::KeyNotFound);
            }
            Some(_) => {}
        }
        proof {
            assert(ptr_view(self.model()).contains_key(kc@));
            assert(self.kv().contains_key(kc@));
        }
        if self.active_records >= ROTATE_RECORDS {
            match self.rotate() {
                Ok(()) => {}
                Err(e) => {
                    return Err(e);
                }
            }
        }
        let ghost mid = *self;
        self.append_record(Record::Del(kc));
        proof {
            assert(self.kv() =~= kv_of(mid.model()).remove(key@));
            assert(mid.segments@.last().data@ + spec_encode(RecordModel::Del(key@))
                == self.segments@.last().data@);
            if will_rotate(*old(self)) {
                assert(mid.segments@.last().data@ == Seq::<char>::empty());
                assert(self.segments@.drop_last() =~= mid.segments@.drop_last());
            } else {
                assert(self.segments@.drop_last() =~= old(self).segments@.drop_last());
            }
        }
        Ok(())
    }

    /// Compact the log: write every currently-live set record of the
    /// sealed segments into a single merged segment whose id is one below
    /// the active id, repoint the directory at it, and delete the sealed
    /// segments.  The key-to-value map is unchanged, and the merged
    /// segment holds exactly one set record for each key whose live
    /// record lay in a sealed segment — no deletes, no stale records, no
    /// key twice.  The order of the records inside the merged segment is
    /// left open by this contract; the body writes them oldest first.
    /// Compaction is refused (a no-op) when the active id is `0` or when
    /// a segment with the merged id already exists.
    pub fn merge(&mut self) -> (res: Result<(), Error>)
        requires
            old(self).wf(),
        ensures
            final(self).wf(),
            res is Ok,
            final(self).kv() == old(self).kv(),
            final(self).active_file_id == old(self).active_file_id,
            final(self).active_records == old(self).active_records,
            ({
                let possible = merge_possible(*old(self));
                &&& (possible ==> final(self).segments@.len() == 2 && final(self).segments@[0].id
                    == old(self).active_file_id - 1 && final(self).segments@[1] == old(
                    self,
                ).segments@.last())
                &&& (possible && old(self).segments@.len() >= 3 ==> final(self).segments@.len()
                    < old(self).segments@.len())
                &&& (!possible ==> *final(self) == *old(self))
            }),
            forall|i: int|
                0 <= i < old(self).pending@.len() ==> final(self).pending@[i]
                    == old(self).pending@[i],
            merge_possible(*old(self)) ==> final(self).pending@.len() > old(self).pending@.len()
                && final(self).pending@[old(self).pending@.len() as int]@ == DiskOpModel::Create(
                (old(self).active_file_id - 1) as u32,
            ),
            merge_possible(*old(self)) ==> ({
                let merged = final(self).segments@[0];
                let mm = replay_from(Map::empty(), merged.id, merged.data@, 0);
                &&& replay_end(merged.data@, 0) == merged.data@.len()
                &&& (forall|k: Seq<char>| #[trigger] mm.contains_key(k) <==> (old(
                    self,
                ).model().contains_key(k) && old(self).model()[k].seg_id != old(
                    self,
                ).active_file_id))
                &&& (forall|k: Seq<char>| #[trigger] mm.contains_key(k) ==> mm[k].seg_id
                    == merged.id && mm[k].value == old(self).model()[k].value)
                &&& rec_count(merged.data@, 0) == mm.dom().len()
            }),
    {
        if self.active_file_id == 0 {
            return Ok(());
        }
        let m_id = self.active_file_id - 1;
        let mut i: usize = 0;
        while i < self.segments.len()
            invariant
                i <= self.segments@.len(),
                forall|j: int| 0 <= j < i ==> self.segments@[j].id != m_id,
                *self == *old(self),
                old(self).wf(),
                m_id == old(self).active_file_id - 1,
                old(self).active_file_id > 0,
            decreases self.segments@.len() - i,
        {
            if self.segments[i].id == m_id {
                return Ok(());
            }
            i += 1;
        }
        let ghost m0 = self.model();
        let ghost old_segs = self.segments@;
        let ghost aid = self.active_file_id;
        let ghost kd_start = self.keydir@;
        proof {
            assert(m0.union_prefer_right(Map::<Seq<char>, LiveEntry>::empty()) =~= m0);
            assert(merge_copied(m0, old_segs, 0, m_id, 0) =~= Set::<Seq<char>>::empty()) by {
                assert forall|k: Seq<char>|
                    !merge_copied(m0, old_segs, 0, m_id, 0).contains(k) by {
                    if m0.contains_key(k) {
                        lemma_replay_segs_valid(old_segs, k);
                        let ii = choose|ii: int|
                            0 <= ii < old_segs.len() && #[trigger] old_segs[ii].id
                                == m0[k].seg_id && reach(old_segs[ii].data@, 0, m0[k].off)
                                && put_at(old_segs[ii].data@, m0[k].off, k, m0[k].value);
                        assert(old_segs[ii].id != m_id);
                    }
                }
            }
        }
        let n_seal = self.segments.len() - 1;
        let mut out: Vec<char> = Vec::new();
        let ghost mut gm = Map::<Seq<char>, LiveEntry>::empty();
        let ghost pend0 = self.pending@;
        self.pending.push(DiskOp::CreateSegment(m_id));
        let mut t: usize = 0;
        while t < n_seal
            invariant
                t <= n_seal,
                n_seal + 1 == old_segs.len(),
                self.segments@ == old_segs,
                self.active_file_id == aid,
                self.active_records == old(self).active_records,
                self.pending@.len() > pend0.len(),
                forall|i: int| 0 <= i < pend0.len() ==> self.pending@[i] == pend0[i],
                self.pending@[pend0.len() as int]@ == DiskOpModel::Create(m_id),
                aid == m_id + 1,
                m0 == replay_segs(old_segs),
                segs_sorted(old_segs),
                aid == old_segs.last().id,
                forall|j: int| 0 <= j < old_segs.len() ==> old_segs[j].id != m_id,
                dir_keys_unique(self.keydir@),
                replay_from(Map::empty(), m_id, out@, 0) == gm,
                replay_end(out@, 0) == out@.len(),
                gm.dom().finite(),
                rec_count(out@, 0) == gm.dom().len(),
                forall|k: Seq<char>| #[trigger] gm.contains_key(k) ==> m0.contains_key(k)
                    && gm[k].seg_id == m_id && gm[k].value == m0[k].value,
                gm.dom() == merge_copied(m0, old_segs, t as int, m_id, 0),
                dir_view(self.keydir@) == ptr_view(m0.union_prefer_right(gm)),
            decreases n_seal - t,
        {
            let ghost sd = self.segments@[t as int].data@;
            let sid = self.segments[t].id;
            proof {
                assert(sid != m_id);
                assert(merge_copied(m0, old_segs, t as int, m_id, 0) =~= merge_copied(
                    m0,
                    old_segs,
                    t as int,
                    sid,
                    0,
                )) by {
                    assert forall|k: Seq<char>| m0.contains_key(k) implies !(m0[k].seg_id == m_id
                        && m0[k].off < 0) && !(m0[k].seg_id == sid && m0[k].off < 0) by {
                        lemma_replay_segs_valid(old_segs, k);
                        let ii = choose|ii: int|
                            0 <= ii < old_segs.len() && #[trigger] old_segs[ii].id
                                == m0[k].seg_id && reach(old_segs[ii].data@, 0, m0[k].off)
                                && put_at(old_segs[ii].data@, m0[k].off, k, m0[k].value);
                        lemma_reach_ge(old_segs[ii].data@, 0, m0[k].off);
                    }
                }
            }
            let mut off: usize = 0;
            loop
                invariant
                    t < n_seal,
                    n_seal + 1 == old_segs.len(),
                    self.segments@ == old_segs,
                    self.active_file_id == aid,
                    self.active_records == old(self).active_records,
                    self.pending@.len() > pend0.len(),
                    forall|i: int| 0 <= i < pend0.len() ==> self.pending@[i] == pend0[i],
                    self.pending@[pend0.len() as int]@ == DiskOpModel::Create(m_id),
                    aid == m_id + 1,
                    m0 == replay_segs(old_segs),
                    segs_sorted(old_segs),
                    aid == old_segs.last().id,
                    forall|j: int| 0 <= j < old_segs.len() ==> old_segs[j].id != m_id,
                    sd == old_segs[t as int].data@,
                    sid == old_segs[t as int].id,
                    dir_keys_unique(self.keydir@),
                    replay_from(Map::empty(), m_id, out@, 0) == gm,
                    replay_end(out@, 0) == out@.len(),
                    gm.dom().finite(),
                    rec_count(out@, 0) == gm.dom().len(),
                    forall|k: Seq<char>| #[trigger] gm.contains_key(k) ==> m0.contains_key(k)
                        && gm[k].seg_id == m_id && gm[k].value == m0[k].value,
                    gm.dom() == merge_copied(m0, old_segs, t as int, sid, off as int),
                    dir_view(self.keydir@) == ptr_view(m0.union_prefer_right(gm)),
                    reach(sd, 0, off as int),
                    off <= sd.len(),
                ensures
                    self.segments@ == old_segs,
                    self.active_file_id == aid,
                    self.active_records == old(self).active_records,
                    self.pending@.len() > pend0.len(),
                    forall|i: int| 0 <= i < pend0.len() ==> self.pending@[i] == pend0[i],
                    self.pending@[pend0.len() as int]@ == DiskOpModel::Create(m_id),
                    dir_keys_unique(self.keydir@),
                    replay_from(Map::empty(), m_id, out@, 0) == gm,
                    replay_end(out@, 0) == out@.len(),
                    gm.dom().finite(),
                    rec_count(out@, 0) == gm.dom().len(),
                    forall|k: Seq<char>| #[trigger] gm.contains_key(k) ==> m0.contains_key(k)
                        && gm[k].seg_id == m_id && gm[k].value == m0[k].value,
                    gm.dom() == merge_copied(m0, old_segs, t as int + 1, m_id, 0),
                    dir_view(self.keydir@) == ptr_view(m0.union_prefer_right(gm)),
                decreases sd.len() - off,
            {
                let parsed = parse_record_at(&self.segments[t].data, off);
                match parsed {
                    None => {
                        proof {
                            assert forall|k: Seq<char>| #[trigger] m0.contains_key(k)
                                && m0[k].seg_id == sid implies m0[k].off < off as int by {
                                lemma_replay_segs_valid(old_segs, k);
                                let ii = choose|ii: int|
                                    0 <= ii < old_segs.len() && #[trigger] old_segs[ii].id
                                        == m0[k].seg_id && reach(old_segs[ii].data@, 0, m0[k].off)
                                        && put_at(old_segs[ii].data@, m0[k].off, k, m0[k].value);
                                assert(ii == t as int) by {
                                    if ii != t as int {
                                        if ii < t as int {
                                            assert(old_segs[ii].id < old_segs[t as int].id);
                                        } else {
                                            assert(old_segs[t as int].id < old_segs[ii].id);
                                        }
                                    }
                                }
                                if m0[k].off >= off as int {
                                    lemma_reach_linear(sd, 0, off as int, m0[k].off);
                                    if m0[k].off > off as int {
                                        lemma_reach_ge(sd, off as int, m0[k].off);
                                        assert(spec_parse(sd, off as int) is Some);
                                    } else {
                                        assert(put_at(sd, off as int, k, m0[k].value));
                                    }
                                }
                            }
                            assert(merge_copied(m0, old_segs, t as int, sid, off as int)
                                =~= merge_copied(m0, old_segs, t as int + 1, m_id, 0)) by {
                                assert forall|k: Seq<char>|
                                    #![trigger merge_copied(m0, old_segs, t as int, sid,
                                        off as int).contains(k)]
                                    #![trigger merge_copied(m0, old_segs, t as int + 1, m_id,
                                        0).contains(k)]
                                    true implies merge_copied(
                                    m0,
                                    old_segs,
                                    t as int,
                                    sid,
                                    off as int,
                                ).contains(k) == merge_copied(
                                    m0,
                                    old_segs,
                                    t as int + 1,
                                    m_id,
                                    0,
                                ).contains(k) by {
                                    if m0.contains_key(k) {
                                        lemma_replay_segs_valid(old_segs, k);
                                        let ii = choose|ii: int|
                                            0 <= ii < old_segs.len() && #[trigger] old_segs[ii].id
                                                == m0[k].seg_id
                                                && reach(old_segs[ii].data@, 0, m0[k].off)
                                                && put_at(
                                                old_segs[ii].data@,
                                                m0[k].off,
                                                k,
                                                m0[k].value,
                                            );
                                        lemma_reach_ge(old_segs[ii].data@, 0, m0[k].off);
                                        assert(old_segs[ii].id != m_id);
                                        if m0[k].seg_id == sid {
                                            assert(old_segs[t as int].id == m0[k].seg_id);
                                            assert(m0[k].off < off as int);
                                        }
                                        if exists|jj: int|
                                            0 <= jj < t as int + 1 && #[trigger] old_segs[jj].id
                                                == m0[k].seg_id {
                                            let jj = choose|jj: int|
                                                0 <= jj < t as int + 1
                                                    && #[trigger] old_segs[jj].id == m0[k].seg_id;
                                            if jj == t as int {
                                                assert(m0[k].seg_id == sid);
                                            }
                                        }
                                    }
                                }
                            }
                            assert(gm.dom() == merge_copied(
                                m0,
                                old_segs,
                                t as int + 1,
                                m_id,
                                0,
                            ));
                        }
                        break;
                    }
                    Some((rec, end)) => {
                        let ghost recm = rec@;
                        proof {
                            lemma_reach_extend(sd, 0, off as int);
                        }
                        match rec {
                            Record::Put(k, v) => {
                                let ghost kv_ = k@;
                                let ghost vv = v@;
                                let mut is_live = false;
                                let found = dir_find(&self.keydir, &k);
                                match found {
                                    Some(ix) => {
                                        let info = self.keydir[ix].1;
                                        if info.file_id == sid && info.file_offset == off as u64 {
                                            is_live = true;
                                        }
                                    }
                                    None => {}
                                }
                                if is_live {
                                    proof {
                                        let patched = m0.union_prefer_right(gm);
                                        assert(ptr_view(patched).contains_key(kv_));
                                        assert(patched.contains_key(kv_));
                                        assert(m0.contains_key(kv_));
                                        if gm.contains_key(kv_) {
                                            assert(patched[kv_] == gm[kv_]);
                                            assert(gm[kv_].seg_id == m_id);
                                            assert(ptr_view(patched)[kv_].0 == m_id);
                                        }
                                        assert(!gm.contains_key(kv_));
                                        assert(patched[kv_] == m0[kv_]);
                                        assert(m0[kv_].seg_id == sid && m0[kv_].off == off as int);
                                        lemma_replay_segs_valid(old_segs, kv_);
                                        let ii = choose|ii: int|
                                            0 <= ii < old_segs.len() && #[trigger] old_segs[ii].id
                                                == m0[kv_].seg_id
                                                && reach(old_segs[ii].data@, 0, m0[kv_].off)
                                                && put_at(
                                                old_segs[ii].data@,
                                                m0[kv_].off,
                                                kv_,
                                                m0[kv_].value,
                                            );
                                        assert(ii == t as int) by {
                                            if ii != t as int {
                                                if ii < t as int {
                                                    assert(old_segs[ii].id
                                                        < old_segs[t as int].id);
                                                } else {
                                                    assert(old_segs[t as int].id
                                                        < old_segs[ii].id);
                                                }
                                            }
                                        }
                                        assert(put_at(sd, off as int, kv_, m0[kv_].value));
                                        assert(vv == m0[kv_].value);
                                    }
                                    let new_off = out.len();
                                    let kcopy = clone_chars(&k);
                                    let rec2 = Record::Put(k, v);
                                    let enc = encode_record(&rec2);
                                    let enc2 = clone_chars(&enc);
                                    let ghost out0 = out@;
                                    let ghost gm0 = gm;
                                    proof {
                                        lemma_replay_append(
                                            Map::empty(),
                                            m_id,
                                            out0,
                                            0,
                                            rec2@,
                                        );
                                        gm = gm.insert(
                                            kv_,
                                            LiveEntry {
                                                seg_id: m_id,
                                                off: new_off as int,
                                                value: vv,
                                            },
                                        );
                                    }
                                    let mut enc_move = enc;
                                    out.append(&mut enc_move);
                                    proof {
                                        assert(!gm0.contains_key(kv_));
                                        assert(gm.dom() =~= gm0.dom().insert(kv_));
                                        assert(gm.dom().len() == gm0.dom().len() + 1);
                                        assert(rec_count(out@, 0) == rec_count(out0, 0) + 1);
                                    }
                                    self.pending.push(DiskOp::AppendSegment(m_id, enc2));
                                    let ghost kd0 = self.keydir@;
                                    dir_upsert(
                                        &mut self.keydir,
                                        kcopy,
                                        ValueInfo { file_id: m_id, file_offset: new_off as u64 },
                                    );
                                    proof {
                                        assert(ptr_view(m0.union_prefer_right(gm)) =~= ptr_view(
                                            m0.union_prefer_right(gm0),
                                        ).insert(kv_, (m_id, new_off as int)));
                                        assert(gm.dom() =~= merge_copied(
                                            m0,
                                            old_segs,
                                            t as int,
                                            sid,
                                            end as int,
                                        )) by {
                                            assert forall|k2: Seq<char>|
                                                #![auto]
                                                m0.contains_key(k2) && m0[k2].seg_id == sid
                                                    && off as int <= m0[k2].off < end as int
                                                implies k2 == kv_ by {
                                                lemma_replay_segs_valid(old_segs, k2);
                                                let jj = choose|jj: int|
                                                    0 <= jj < old_segs.len()
                                                        && #[trigger] old_segs[jj].id
                                                        == m0[k2].seg_id
                                                        && reach(old_segs[jj].data@, 0, m0[k2].off)
                                                        && put_at(
                                                        old_segs[jj].data@,
                                                        m0[k2].off,
                                                        k2,
                                                        m0[k2].value,
                                                    );
                                                assert(jj == t as int) by {
                                                    if jj != t as int {
                                                        if jj < t as int {
                                                            assert(old_segs[jj].id
                                                                < old_segs[t as int].id);
                                                        } else {
                                                            assert(old_segs[t as int].id
                                                                < old_segs[jj].id);
                                                        }
                                                    }
                                                }
                                                if m0[k2].off > off as int {
                                                    lemma_reach_linear(
                                                        sd,
                                                        0,
                                                        off as int,
                                                        m0[k2].off,
                                                    );
                                                    lemma_reach_ge(sd, end as int, m0[k2].off);
                                                } else {
                                                    assert(m0[k2].off == off as int);
                                                    assert(put_at(sd, off as int, k2, m0[k2].value));
                                                    assert(spec_parse(sd, off as int)->Some_0.0
                                                        == RecordModel::Put(k2, m0[k2].value));
                                                    assert(spec_parse(sd, off as int)->Some_0.0
                                                        == RecordModel::Put(kv_, vv));
                                                }
                                            }
                                        }
                                    }
                                } else {
                                    proof {
                                        assert forall|k2: Seq<char>|
                                            #![auto]
                                            m0.contains_key(k2) && m0[k2].seg_id == sid
                                                && off as int <= m0[k2].off < end as int
                                            implies false by {
                                            lemma_replay_segs_valid(old_segs, k2);
                                            let jj = choose|jj: int|
                                                0 <= jj < old_segs.len()
                                                    && #[trigger] old_segs[jj].id == m0[k2].seg_id
                                                    && reach(old_segs[jj].data@, 0, m0[k2].off)
                                                    && put_at(
                                                    old_segs[jj].data@,
                                                    m0[k2].off,
                                                    k2,
                                                    m0[k2].value,
                                                );
                                            assert(jj == t as int) by {
                                                if jj != t as int {
                                                    if jj < t as int {
                                                        assert(old_segs[jj].id
                                                            < old_segs[t as int].id);
                                                    } else {
                                                        assert(old_segs[t as int].id
                                                            < old_segs[jj].id);
                                                    }
                                                }
                                            }
                                            if m0[k2].off > off as int {
                                                lemma_reach_linear(sd, 0, off as int, m0[k2].off);
                                                lemma_reach_ge(sd, end as int, m0[k2].off);
                                            } else {
                                                assert(m0[k2].off == off as int);
                                                assert(put_at(sd, off as int, k2, m0[k2].value));
                                                assert(spec_parse(sd, off as int)->Some_0.0
                                                    == RecordModel::Put(k2, m0[k2].value));
                                                assert(k2 == kv_ && m0[k2].value == vv);
                                                // the directory still points here, so the
                                                // liveness test would have succeeded
                                                let patched = m0.union_prefer_right(gm);
                                                if gm.contains_key(k2) {
                                                    assert(gm.dom().contains(k2));
                                                    assert(merge_copied(
                                                        m0,
                                                        old_segs,
                                                        t as int,
                                                        sid,
                                                        off as int,
                                                    ).contains(k2));
                                                    if m0[k2].seg_id == sid
                                                        && m0[k2].off < off as int {
                                                    }
                                                    let ii2 = choose|ii2: int|
                                                        0 <= ii2 < t as int
                                                            && #[trigger] old_segs[ii2].id
                                                            == m0[k2].seg_id;
                                                    assert(old_segs[ii2].id
                                                        < old_segs[t as int].id);
                                                }
                                                assert(!gm.contains_key(k2));
                                                assert(patched[k2] == m0[k2]);
                                                assert(dir_view(self.keydir@)[k2] == (
                                                    sid,
                                                    off as int,
                                                ));
                                            }
                                        }
                                        assert(gm.dom() =~= merge_copied(
                                            m0,
                                            old_segs,
                                            t as int,
                                            sid,
                                            end as int,
                                        ));
                                    }
                                }
                                off = end;
                            }
                            Record::Del(_k) => {
                                proof {
                                    assert forall|k2: Seq<char>|
                                        #![auto]
                                        m0.contains_key(k2) && m0[k2].seg_id == sid
                                            && off as int <= m0[k2].off < end as int
                                        implies false by {
                                        lemma_replay_segs_valid(old_segs, k2);
                                        let jj = choose|jj: int|
                                            0 <= jj < old_segs.len() && #[trigger] old_segs[jj].id
                                                == m0[k2].seg_id
                                                && reach(old_segs[jj].data@, 0, m0[k2].off)
                                                && put_at(
                                                old_segs[jj].data@,
                                                m0[k2].off,
                                                k2,
                                                m0[k2].value,
                                            );
                                        assert(jj == t as int) by {
                                            if jj != t as int {
                                                if jj < t as int {
                                                    assert(old_segs[jj].id
                                                        < old_segs[t as int].id);
                                                } else {
                                                    assert(old_segs[t as int].id
                                                        < old_segs[jj].id);
                                                }
                                            }
                                        }
                                        if m0[k2].off > off as int {
                                            lemma_reach_linear(sd, 0, off as int, m0[k2].off);
                                            lemma_reach_ge(sd, end as int, m0[k2].off);
                                        } else {
                                            assert(m0[k2].off == off as int);
                                            assert(put_at(sd, off as int, k2, m0[k2].value));
                                            assert(spec_parse(sd, off as int)->Some_0.0
                                                == RecordModel::Put(k2, m0[k2].value));
                                            assert(spec_parse(sd, off as int)->Some_0.0 is Del);
                                        }
                                    }
                                    assert(gm.dom() =~= merge_copied(
                                        m0,
                                        old_segs,
                                        t as int,
                                        sid,
                                        end as int,
                                    ));
                                }
                                off = end;
                            }
                        }
                    }
                }
            }
            self.pending.push(DiskOp::RemoveSegment(sid));
            t += 1;
        }
        // Rebuild the segment set as [merged, active].
        let active_opt = self.segments.pop();
        let active = match active_opt {
            Some(a) => a,
            None => {
                proof {
                    assert(false);
                }
                return Ok(());
            }
        };
        let mut new_segs: Vec<Segment> = Vec::new();
        new_segs.push(Segment { id: m_id, data: out });
        new_segs.push(active);
        self.segments = new_segs;
        proof {
            let merged = self.segments@[0];
            let fin_segs = self.segments@;
            let patched = m0.union_prefer_right(gm);
            assert(fin_segs =~= seq![merged, old_segs.last()]);
            let fin = replay_segs(fin_segs);
            assert(fin.dom() =~= patched.dom()) by {
                assert forall|k: Seq<char>| #[trigger] fin.dom().contains(k) == patched.dom()
                    .contains(k) by {
                    lemma_merge_final(old_segs, gm, merged, k);
                    assert(fin.contains_key(k) == patched.contains_key(k));
                }
            }
            assert(fin =~= patched) by {
                assert forall|k: Seq<char>| #[trigger] patched.dom().contains(k) implies fin[k]
                    == patched[k] by {
                    lemma_merge_final(old_segs, gm, merged, k);
                }
            }
            assert(dir_view(self.keydir@) == ptr_view(self.model()));
            assert(self.kv() =~= kv_of(m0)) by {
                assert(patched.dom() =~= m0.dom());
                assert forall|k: Seq<char>| #![auto] patched.contains_key(k)
                    implies patched[k].value == m0[k].value by {
                    if gm.contains_key(k) {
                    }
                }
            }
            assert(segs_sorted(fin_segs));
            assert(fin_segs.last() == old_segs.last());
            // the merged segment holds exactly the sealed-live bindings
            assert(replay_from(Map::empty(), merged.id, merged.data@, 0) == gm);
            assert forall|k: Seq<char>| #[trigger] gm.contains_key(k) <==> (m0.contains_key(k)
                && m0[k].seg_id != aid) by {
                if m0.contains_key(k) {
                    lemma_replay_segs_valid(old_segs, k);
                    let ii = choose|ii: int|
                        0 <= ii < old_segs.len() && #[trigger] old_segs[ii].id == m0[k].seg_id
                            && reach(old_segs[ii].data@, 0, m0[k].off) && put_at(
                            old_segs[ii].data@,
                            m0[k].off,
                            k,
                            m0[k].value,
                        );
                    lemma_reach_ge(old_segs[ii].data@, 0, m0[k].off);
                    if m0[k].seg_id != aid {
                        assert(ii < old_segs.len() - 1) by {
                            if ii == old_segs.len() - 1 {
                                assert(old_segs[ii].id == aid);
                            }
                        }
                        assert(merge_copied(m0, old_segs, n_seal as int, m_id, 0).contains(k));
                    }
                    if gm.contains_key(k) {
                        assert(merge_copied(m0, old_segs, n_seal as int, m_id, 0).contains(k));
                        if exists|jj: int|
                            0 <= jj < n_seal as int && #[trigger] old_segs[jj].id
                                == m0[k].seg_id {
                            let jj = choose|jj: int|
                                0 <= jj < n_seal as int && #[trigger] old_segs[jj].id
                                    == m0[k].seg_id;
                            assert(old_segs[jj].id < old_segs[old_segs.len() - 1].id);
                        } else {
                            assert(old_segs[ii].id != m_id);
                        }
                    }
                }
            }
        }
        Ok(())
    }

    /// Give up the store and hand back its segments, e.g. to reopen.
    pub fn into_segments(self) -> (r: Vec<Segment>)
        ensures
            r@ == self.segments@,
    {
        self.segments
    }

    /// How many segment files the store currently has.
    pub fn num_segments(&self) -> (r: usize)
        ensures
            r == self.segments@.len(),
    {
        self.segments.len()
    }

    /// The id of the active (newest) segment.
    pub fn active_segment_id(&self) -> (r: u32)
        ensures
            r == self.active_file_id,
    {
        self.active_file_id
    }

    /// The character length of the active segment's contents, e.g. to see
    /// how much of the newest file recovery kept.
    pub fn active_segment_len(&self) -> (r: usize)
        requires
            self.wf(),
        ensures
            r == self.segments@.last().data@.len(),
    {
        self.segments[self.segments.len() - 1].data.len()
    }

    /// The ids of all segments, oldest first.
    pub fn segment_ids(&self) -> (r: Vec<u32>)
        ensures
            r@.len() == self.segments@.len(),
            forall|i: int| 0 <= i < r@.len() ==> r@[i] == self.segments@[i].id,
    {
        let mut out: Vec<u32> = Vec::new();
        let mut i: usize = 0;
        while i < self.segments.len()
            invariant
                i <= self.segments@.len(),
                out@.len() == i as int,
                forall|j: int| 0 <= j < i ==> out@[j] == self.segments@[j].id,
            decreases self.segments@.len() - i,
        {
            out.push(self.segments[i].id);
            i += 1;
        }
        out
    }

    /// Hand over the disk operations performed since the last call, in
    /// order, clearing the queue.  The store itself is unchanged.
    pub fn take_pending_ops(&mut self) -> (r: Vec<DiskOp>)
        ensures
            r@ == old(self).pending@,
            final(self).pending@.len() == 0,
            final(self).segments == old(self).segments,
            final(self).keydir == old(self).keydir,
            final(self).active_file_id == old(self).active_file_id,
            final(self).active_records == old(self).active_records,
            final(self).wf() == old(self).wf(),
            final(self).kv() == old(self).kv(),
    {
        let mut ops: Vec<DiskOp> = Vec::new();
        core::mem::swap(&mut ops, &mut self.pending);
        ops
    }
}

impl crate::engine::KvsEngine for KvStore {
    open spec fn inv(&self) -> bool {
        self.wf()
    }

    open spec fn kv_map(&self) -> Map<Seq<char>, Seq<char>> {
        self.kv()
    }

    fn get(&mut self, key: String) -> (r: Result<Option<String>, Error>) {
        self.get(key)
    }

    fn set(&mut self, key: String, value: String) -> (r: Result<(), Error>) {
        self.set(key, value)
    }

    fn remove(&mut self, key: String) -> (r: Result<(), Error>) {
        self.remove(key)
    }
}

// ---------------------------------------------------------------------------
// Laws
// ---------------------------------------------------------------------------

/// After `set(k, v)` the store's map holds `v` at `k`, and `get(k)`
/// returns it, until the next `set(k, _)` or `remove(k)`: a set or remove
/// of any other key leaves the binding untouched.  (`set` ensures the map
/// becomes `insert(k, v)`; `get` ensures it returns the map's binding.)
pub proof fn lemma_set_then_get(
    m: Map<Seq<char>, Seq<char>>,
    k: Seq<char>,
    v: Seq<char>,
    k2: Seq<char>,
    v2: Seq<char>,
)
    ensures
        m.insert(k, v).contains_key(k) && m.insert(k, v)[k] == v,
        k2 != k ==> m.insert(k, v).insert(k2, v2).contains_key(k) && m.insert(k, v).insert(
            k2,
            v2,
        )[k] == v,
        k2 != k ==> m.insert(k, v).remove(k2).contains_key(k) && m.insert(k, v).remove(k2)[k]
            == v,
{
}

/// After `remove(k)` the store's map has no binding at `k`, and `get(k)`
/// returns nothing, until the next `set(k, _)`: a set or remove of any
/// other key cannot bring the binding back.
pub proof fn lemma_remove_then_get(
    m: Map<Seq<char>, Seq<char>>,
    k: Seq<char>,
    k2: Seq<char>,
    v2: Seq<char>,
)
    ensures
        !m.remove(k).contains_key(k),
        k2 != k ==> !m.remove(k).insert(k2, v2).contains_key(k),
        k2 != k ==> !m.remove(k).remove(k2).contains_key(k),
{
}

/// Re-opening is idempotent: a well-formed store's segments are sorted,
/// and replaying them yields exactly the store's current key-value map.
/// With [`KvStore::open`]'s contract, opening the segments a closed store
/// hands back therefore yields a store whose `get` answers are unchanged.
pub proof fn lemma_reopen_same_map(s: KvStore)
    requires
        s.wf(),
    ensures
        segs_sorted(s.segments@),
        kv_of(replay_segs(s.segments@)) == s.kv(),
{
}

/// Segment monotonicity: in a well-formed store the active segment's id
/// is strictly greater than every sealed segment's id.
pub proof fn lemma_active_newest(s: KvStore)
    requires
        s.wf(),
    ensures
        forall|i: int| 0 <= i < s.segments@.len() - 1 ==> s.segments@[i].id < s.active_file_id,
{
    assert forall|i: int| 0 <= i < s.segments@.len() - 1 implies s.segments@[i].id
        < s.active_file_id by {
        assert(s.segments@[i].id < s.segments@[s.segments@.len() - 1].id);
    }
}

// ---------------------------------------------------------------------------
// Recovery helpers
// ---------------------------------------------------------------------------

/// Whether the segments are already in strictly ascending id order.
fn check_sorted(segs: &Vec<Segment>) -> (r: bool)
    ensures
        r == segs_sorted(segs@),
{
    let mut i: usize = 1;
    while i < segs.len()
        invariant
            i >= 1,
            i <= segs@.len() || segs@.len() == 0,
            forall|a: int, b: int| 0 <= a < b < i ==> segs@[a].id < segs@[b].id,
        decreases segs@.len() - i,
    {
        if segs[i - 1].id >= segs[i].id {
            proof {
                assert(!segs_sorted(segs@));
            }
            return false;
        }
        proof {
            assert forall|a: int, b: int| 0 <= a < b < i + 1 implies segs@[a].id < segs@[b].id by {
                if b == i as int {
                    assert(segs@[a].id < segs@[i - 1].id || a == i - 1);
                }
            }
        }
        i += 1;
    }
    true
}

/// Sort segments by id, refusing duplicates: the result holds exactly
/// the given segments, in ascending id order.
fn sort_segments(input: Vec<Segment>) -> (r: Result<Vec<Segment>, Error>)
    ensures
        match r {
            Ok(v) => segs_sorted(v@) && v@.to_multiset() == input@.to_multiset(),
            Err(e) => e == Error::Storage,
        },
{
    broadcast use vstd::seq_lib::group_to_multiset_ensures;

    let ghost input0 = input@;
    let mut rest = input;
    let mut out: Vec<Segment> = Vec::new();
    while rest.len() > 0
        invariant
            segs_sorted(out@),
            out@.to_multiset().add(rest@.to_multiset()) == input0.to_multiset(),
            out@.len() > 0 ==> forall|j: int| 0 <= j < rest@.len()
                ==> rest@[j].id >= out@.last().id,
        decreases rest@.len(),
    {
        let mut mi: usize = 0;
        let mut t: usize = 1;
        while t < rest.len()
            invariant
                mi < rest@.len(),
                t <= rest@.len() || rest@.len() == 0,
                forall|j: int| 0 <= j < t && j < rest@.len() ==> rest@[mi as int].id
                    <= rest@[j].id,
            decreases rest@.len() - t,
        {
            if rest[t].id < rest[mi].id {
                mi = t;
            }
            t += 1;
        }
        let ghost rest0 = rest@;
        let ghost out_ms0 = out@.to_multiset();
        let s = rest.remove(mi);
        if out.len() > 0 && out[out.len() - 1].id >= s.id {
            return Err(Error::Storage);
        }
        let ghost out0 = out@;
        out.push(s);
        proof {
            rest0.to_multiset_ensures();
            out0.to_multiset_ensures();
            assert(rest@ == rest0.remove(mi as int));
            assert(rest0.remove(mi as int).to_multiset() =~= rest0.to_multiset().remove(
                rest0[mi as int],
            ));
            assert(out@ == out0.push(rest0[mi as int]));
            assert(out0.push(rest0[mi as int]).to_multiset() =~= out0.to_multiset().insert(
                rest0[mi as int],
            ));
            assert(rest0.contains(rest0[mi as int]));
            assert(rest0.to_multiset().count(rest0[mi as int]) > 0);
            assert(out@.to_multiset().add(rest@.to_multiset()) =~= input0.to_multiset());
            assert forall|a: int, b: int| 0 <= a < b < out@.len() implies
                out@[a].id < out@[b].id by {
                if b < out@.len() - 1 {
                    assert(out@[a] == out0[a] && out@[b] == out0[b]);
                } else {
                    assert(out@[a] == out0[a]);
                    if a < out0.len() - 1 {
                        assert(out0[a].id < out0[out0.len() - 1].id);
                    }
                }
            }
            assert forall|j: int| 0 <= j < rest@.len() implies rest@[j].id >= out@.last().id by {
                let j0 = if j < mi as int { j } else { j + 1 };
                assert(rest@[j] == rest0[j0]);
                assert(rest0[mi as int].id <= rest0[j0].id);
            }
        }
    }
    proof {
        rest@.to_multiset_ensures();
        assert(rest@.to_multiset().len() == 0);
        assert(rest@.to_multiset() =~= vstd::multiset::Multiset::<Segment>::empty());
        assert(out@.to_multiset() =~= input0.to_multiset());
    }
    Ok(out)
}

/// Replay one segment's records into the directory, returning the new
/// directory, the offset where replay stopped, and the record count.
fn replay_segment(
    kd0: Vec<(Vec<char>, ValueInfo)>,
    seg: &Segment,
    Ghost(m0): Ghost<Map<Seq<char>, LiveEntry>>,
) -> (r: (Vec<(Vec<char>, ValueInfo)>, usize, usize))
    requires
        dir_keys_unique(kd0@),
        dir_view(kd0@) == ptr_view(m0),
    ensures
        ({
            let (kd, stop, cnt) = r;
            &&& dir_keys_unique(kd@)
            &&& dir_view(kd@) == ptr_view(replay_from(m0, seg.id, seg.data@, 0))
            &&& stop as int == replay_end(seg.data@, 0)
            &&& stop <= seg.data@.len()
            &&& cnt as nat == rec_count(seg.data@, 0)
        }),
{
    let mut kd = kd0;
    let mut off: usize = 0;
    let mut cnt: usize = 0;
    let n = seg.data.len();
    let ghost mut gm = m0;
    proof {
        crate::wal::lemma_rec_count_bound(seg.data@, 0);
    }
    loop
        invariant
            off <= n,
            n == seg.data@.len(),
            dir_keys_unique(kd@),
            dir_view(kd@) == ptr_view(gm),
            replay_from(m0, seg.id, seg.data@, 0) == replay_from(gm, seg.id, seg.data@, off as int),
            replay_end(seg.data@, 0) == replay_end(seg.data@, off as int),
            rec_count(seg.data@, 0) == cnt + rec_count(seg.data@, off as int),
            cnt <= n,
        decreases seg.data@.len() - off,
    {
        match parse_record_at(&seg.data, off) {
            None => {
                proof {
                    assert(replay_from(gm, seg.id, seg.data@, off as int) == gm);
                    assert(replay_end(seg.data@, off as int) == off as int);
                    assert(rec_count(seg.data@, off as int) == 0);
                }
                return (kd, off, cnt);
            }
            Some((rec, end)) => {
                let ghost recm = rec@;
                let ghost gm0 = gm;
                proof {
                    assert(replay_from(gm, seg.id, seg.data@, off as int) == replay_from(
                        apply_record(gm, seg.id, off as int, recm),
                        seg.id,
                        seg.data@,
                        end as int,
                    ));
                    assert(replay_end(seg.data@, off as int) == replay_end(
                        seg.data@,
                        end as int,
                    ));
                    assert(rec_count(seg.data@, off as int) == 1 + rec_count(
                        seg.data@,
                        end as int,
                    ));
                    crate::wal::lemma_rec_count_bound(seg.data@, end as int);
                    crate::wal::lemma_rec_count_bound(seg.data@, 0);
                    gm = apply_record(gm, seg.id, off as int, recm);
                }
                match rec {
                    Record::Put(k, _v) => {
                        let ghost kview = k@;
                        dir_upsert(
                            &mut kd,
                            k,
                            ValueInfo { file_id: seg.id, file_offset: off as u64 },
                        );
                        proof {
                            assert(ptr_view(gm) =~= ptr_view(gm0).insert(
                                kview,
                                (seg.id, off as int),
                            ));
                        }
                    }
                    Record::Del(k) => {
                        dir_remove_key(&mut kd, &k);
                        proof {
                            assert(ptr_view(gm) =~= ptr_view(gm0).remove(k@));
                        }
                    }
                }
                cnt += 1;
                off = end;
            }
        }
    }
}

} // verus!
