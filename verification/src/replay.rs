//! Replay semantics of the log.
//!
//! The authoritative meaning of a segment directory is obtained by decoding
//! each segment in ascending generation order and applying every command to
//! an initially empty state. Replay stops inside a segment at the first
//! position where no complete record decodes, so a torn tail is simply
//! ignored. The store's invariant ties its in-memory index, key/value view
//! and uncompacted counter to the replay of its own segments; persistence
//! across reopen is this connection.

use vstd::prelude::*;
use crate::codec::{CommandView, spec_decode, record_bytes, command_fits};
use crate::codec::{lemma_decode_exact, lemma_record_decodes};
use crate::disk::Segment;

verus! {

/// The state that replaying a log prefix produces.
pub struct LoadState {
    /// Key to `(generation, offset, length)` of the key's latest `Set`.
    pub index: Map<Seq<char>, (u64, u64, u64)>,
    /// Key to the value of the key's latest `Set`: the store's meaning.
    pub kv: Map<Seq<char>, Seq<char>>,
    /// Bytes superseded by later records: what compaction would reclaim.
    pub uncompacted: int,
}

/// The state before any record has been replayed.
pub open spec fn empty_state() -> LoadState {
    LoadState { index: Map::empty(), kv: Map::empty(), uncompacted: 0 }
}

/// Bytes that replacing `key`'s entry would strand: the length of the
/// record the entry points at, if one is present.
pub open spec fn stale_growth(st: LoadState, key: Seq<char>) -> int {
    if st.index.dom().contains(key) {
        st.index[key].2 as int
    } else {
        0
    }
}

/// One command's effect on the replay state. The record spans
/// `[start, start + len)` in segment `g`.
pub open spec fn apply_command(st: LoadState, c: CommandView, g: u64, start: u64, len: u64) -> LoadState {
    match c {
        CommandView::Put { key, value } => LoadState {
            index: st.index.insert(key, (g, start, len)),
            kv: st.kv.insert(key, value),
            uncompacted: st.uncompacted + stale_growth(st, key),
        },
        CommandView::Remove { key } => LoadState {
            index: st.index.remove(key),
            kv: st.kv.remove(key),
            uncompacted: st.uncompacted + stale_growth(st, key) + len,
        },
    }
}

/// Replays segment `g` from byte offset `pos`, returning the resulting
/// state and the offset where decoding stopped.
pub open spec fn replay_segment_from(data: Seq<u8>, g: u64, pos: int, st: LoadState) -> (LoadState, int)
    decreases data.len() - pos,
{
    if pos < 0 || pos >= data.len() {
        (st, pos)
    } else {
        match spec_decode(data.skip(pos)) {
            Some((c, n)) => if 0 < n <= data.len() - pos {
                replay_segment_from(data, g, pos + n, apply_command(st, c, g, pos as u64, n as u64))
            } else {
                (st, pos)
            },
            None => (st, pos),
        }
    }
}

/// Replays the first `i` segments, oldest first.
pub open spec fn replay_upto(segs: Seq<Segment>, i: int) -> LoadState
    decreases i,
{
    if i <= 0 {
        empty_state()
    } else {
        replay_segment_from(
            segs[i - 1].data@,
            segs[i - 1].generation_num,
            0,
            replay_upto(segs, i - 1),
        ).0
    }
}

/// The meaning of a segment directory: the replay of all its segments.
pub open spec fn replay_disk(segs: Seq<Segment>) -> LoadState {
    replay_upto(segs, segs.len() as int)
}

/// Replay of `seg` stops exactly at its end: the segment is a clean
/// concatenation of records with no trailing garbage.
pub open spec fn seg_consumed(seg: Segment, st: LoadState) -> bool {
    replay_segment_from(seg.data@, seg.generation_num, 0, st).1 == seg.data@.len()
}

/// How many bytes of the segment at position `i` replay consumes: all of
/// them for a cleanly written segment, only the well-formed prefix after a
/// torn tail.
pub open spec fn seg_consumed_bytes(segs: Seq<Segment>, i: int) -> int {
    replay_segment_from(segs[i].data@, segs[i].generation_num, 0, replay_upto(segs, i)).1
}

/// Bytes consumed by replaying the first `i` segments.
pub open spec fn consumed_upto(segs: Seq<Segment>, i: int) -> int
    decreases i,
{
    if i <= 0 {
        0
    } else {
        consumed_upto(segs, i - 1) + seg_consumed_bytes(segs, i - 1)
    }
}

/// Bytes consumed by replaying the whole directory.
pub open spec fn consumed_bytes(segs: Seq<Segment>) -> int {
    consumed_upto(segs, segs.len() as int)
}

/// Replay never runs past the end of a segment.
pub proof fn lemma_replay_end_bounds(data: Seq<u8>, g: u64, pos: int, st: LoadState)
    requires
        0 <= pos <= data.len(),
    ensures
        pos <= replay_segment_from(data, g, pos, st).1 <= data.len(),
    decreases data.len() - pos,
{
    if pos < data.len() {
        match spec_decode(data.skip(pos)) {
            Some((c, n)) => {
                if 0 < n <= data.len() - pos {
                    lemma_replay_end_bounds(data, g, pos + n, apply_command(st, c, g, pos as u64, n as u64));
                }
            },
            None => {},
        }
    }
}

/// Replay consumes at most the directory: each segment contributes at
/// most its own length.
pub proof fn lemma_consumed_le_total(segs: Seq<Segment>, i: int)
    requires
        0 <= i <= segs.len(),
    ensures
        consumed_upto(segs, i) <= crate::disk::total_bytes_upto(segs, i),
        0 <= consumed_upto(segs, i),
    decreases i,
{
    if i > 0 {
        lemma_consumed_le_total(segs, i - 1);
        lemma_replay_end_bounds(
            segs[i - 1].data@,
            segs[i - 1].generation_num,
            0,
            replay_upto(segs, i - 1),
        );
    }
}

/// Consumed bytes only depend on the listed segments.
pub proof fn lemma_consumed_upto_agree(s1: Seq<Segment>, s2: Seq<Segment>, i: int)
    requires
        0 <= i <= s1.len(),
        i <= s2.len(),
        forall|j: int|
            0 <= j < i ==> s1[j].generation_num == s2[j].generation_num && s1[j].data@
                == s2[j].data@,
    ensures
        consumed_upto(s1, i) == consumed_upto(s2, i),
    decreases i,
{
    if i > 0 {
        lemma_consumed_upto_agree(s1, s2, i - 1);
        lemma_replay_upto_agree(s1, s2, i - 1);
    }
}

/// Total length of the records the index keeps live: the sum of the length
/// field over all entries.
pub open spec fn live_sum(m: Map<Seq<char>, (u64, u64, u64)>) -> int
    decreases m.dom().len() when m.dom().finite()
{
    if m.dom().finite() && m.dom().len() > 0 {
        let k = m.dom().choose();
        m[k].2 + live_sum(m.remove(k))
    } else {
        0
    }
}

/// Removing an entry takes exactly its length out of the live total.
pub proof fn lemma_live_sum_remove(m: Map<Seq<char>, (u64, u64, u64)>, k: Seq<char>)
    requires
        m.dom().finite(),
        m.dom().contains(k),
    ensures
        live_sum(m) == live_sum(m.remove(k)) + m[k].2,
    decreases m.dom().len(),
{
    let k0 = m.dom().choose();
    if k0 == k {
    } else {
        assert(m.dom().len() > 0);
        assert(m.remove(k0).dom().contains(k));
        lemma_live_sum_remove(m.remove(k0), k);
        assert(m.remove(k0).remove(k) =~= m.remove(k).remove(k0));
        assert(m.remove(k).dom().contains(k0));
        lemma_live_sum_remove(m.remove(k), k0);
        assert(live_sum(m) == m[k0].2 + live_sum(m.remove(k0)));
        assert(live_sum(m.remove(k0)) == live_sum(m.remove(k0).remove(k)) + m[k].2);
        assert(live_sum(m.remove(k)) == live_sum(m.remove(k).remove(k0)) + m[k0].2);
    }
}

/// Inserting an entry adds its length and retires the replaced entry's.
pub proof fn lemma_live_sum_insert(m: Map<Seq<char>, (u64, u64, u64)>, k: Seq<char>, v: (u64, u64, u64))
    requires
        m.dom().finite(),
    ensures
        live_sum(m.insert(k, v)) == live_sum(m) + v.2 - (if m.dom().contains(k) {
            m[k].2 as int
        } else {
            0
        }),
{
    let m2 = m.insert(k, v);
    assert(m2.dom().contains(k));
    lemma_live_sum_remove(m2, k);
    if m.dom().contains(k) {
        lemma_live_sum_remove(m, k);
        assert(m2.remove(k) =~= m.remove(k));
    } else {
        assert(m2.remove(k) =~= m);
    }
}

/// The live total is never negative.
pub proof fn lemma_live_sum_nonneg(m: Map<Seq<char>, (u64, u64, u64)>)
    requires
        m.dom().finite(),
    ensures
        live_sum(m) >= 0,
    decreases m.dom().len(),
{
    if m.dom().len() > 0 {
        lemma_live_sum_nonneg(m.remove(m.dom().choose()));
    }
}

/// Maps with the same keys and entry lengths have the same live total.
pub proof fn lemma_live_sum_congruent(
    m1: Map<Seq<char>, (u64, u64, u64)>,
    m2: Map<Seq<char>, (u64, u64, u64)>,
)
    requires
        m1.dom().finite(),
        m2.dom() == m1.dom(),
        forall|k: Seq<char>| #[trigger] m1.dom().contains(k) ==> m1[k].2 == m2[k].2,
    ensures
        live_sum(m1) == live_sum(m2),
    decreases m1.dom().len(),
{
    if m1.dom().len() > 0 {
        let k = m1.dom().choose();
        lemma_live_sum_remove(m1, k);
        lemma_live_sum_remove(m2, k);
        assert(m2.remove(k).dom() =~= m1.remove(k).dom());
        lemma_live_sum_congruent(m1.remove(k), m2.remove(k));
    }
}

/// A single entry's length never exceeds the live total.
pub proof fn lemma_live_sum_entry(m: Map<Seq<char>, (u64, u64, u64)>, k: Seq<char>)
    requires
        m.dom().finite(),
        m.dom().contains(k),
    ensures
        m[k].2 <= live_sum(m),
{
    lemma_live_sum_remove(m, k);
    lemma_live_sum_nonneg(m.remove(k));
}

/// A record that decodes from the head of a stream decodes the same way
/// after the stream is extended.
pub proof fn lemma_decode_extend(s: Seq<u8>, ext: Seq<u8>, c: CommandView, n: int)
    requires
        spec_decode(s) == Some((c, n)),
    ensures
        spec_decode(s + ext) == Some((c, n)),
{
    lemma_decode_exact(s, c, n);
    assert(record_bytes(c).len() == n);
    lemma_record_decodes(c, s.skip(n) + ext);
    assert(s + ext =~= record_bytes(c) + (s.skip(n) + ext));
}

/// Appending one record to a fully replayed stream leaves the existing
/// decode chain unchanged and applies exactly that command at its end.
pub proof fn lemma_replay_append_from(
    data: Seq<u8>,
    g: u64,
    pos: int,
    st: LoadState,
    c: CommandView,
)
    requires
        0 <= pos <= data.len(),
        command_fits(c),
        replay_segment_from(data, g, pos, st).1 == data.len(),
        data.len() + record_bytes(c).len() <= u64::MAX,
    ensures
        replay_segment_from(data + record_bytes(c), g, pos, st) == (
            apply_command(
                replay_segment_from(data, g, pos, st).0,
                c,
                g,
                data.len() as u64,
                record_bytes(c).len() as u64,
            ),
            data.len() + record_bytes(c).len() as int,
        ),
    decreases data.len() - pos,
{
    let rb = record_bytes(c);
    let d2 = data + rb;
    lemma_record_decodes(c, Seq::<u8>::empty());
    if pos == data.len() {
        assert(d2.skip(pos) =~= rb + Seq::<u8>::empty());
        let st2 = apply_command(st, c, g, pos as u64, rb.len() as u64);
        assert(replay_segment_from(d2, g, pos + rb.len() as int, st2) == (
            st2,
            pos + rb.len() as int,
        ));
        assert(replay_segment_from(data, g, pos, st).0 == st);
    } else {
        match spec_decode(data.skip(pos)) {
            Some((c0, n)) => {
                lemma_decode_exact(data.skip(pos), c0, n);
                lemma_decode_extend(data.skip(pos), rb, c0, n);
                assert(d2.skip(pos) =~= data.skip(pos) + rb);
                let st1 = apply_command(st, c0, g, pos as u64, n as u64);
                assert(replay_segment_from(data, g, pos, st) == replay_segment_from(
                    data,
                    g,
                    pos + n,
                    st1,
                ));
                lemma_replay_append_from(data, g, pos + n, st1, c);
            },
            None => {
                assert(replay_segment_from(data, g, pos, st).1 == pos);
                assert(false);
            },
        }
    }
}

/// Replay of the first `i` segments reads nothing but those segments.
pub proof fn lemma_replay_upto_agree(s1: Seq<Segment>, s2: Seq<Segment>, i: int)
    requires
        0 <= i <= s1.len(),
        i <= s2.len(),
        forall|j: int|
            0 <= j < i ==> s1[j].generation_num == s2[j].generation_num && s1[j].data@
                == s2[j].data@,
    ensures
        replay_upto(s1, i) == replay_upto(s2, i),
    decreases i,
{
    if i > 0 {
        lemma_replay_upto_agree(s1, s2, i - 1);
    }
}

} // verus!
