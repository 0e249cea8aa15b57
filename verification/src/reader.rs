//! Reader handles.
//!
//! A reader handle is a per-slot view over the segment set. It owns a cache
//! of open descriptors keyed by generation and consults the published safe
//! point: before any read it closes every descriptor whose generation lies
//! below the safe point — the only place descriptors are ever closed — so
//! that segments deleted by compaction are eventually released.

use vstd::prelude::*;
use crate::codec::{Command, CommandView, record_bytes, command_fits, decode_command, lemma_record_decodes};
use crate::disk::{Segment, segs_sorted, has_gen, gen_data, gens_sorted, lemma_gen_unique, find_segment};
use crate::errors::KvsError;
use crate::index::CommandPosition;
use vstd::slice::{slice_subrange, slice_to_vec};

verus! {

/// The record at `pos` is exactly the serialization of command `c`.
pub open spec fn pos_holds(segments: Seq<Segment>, pos: CommandPosition, c: CommandView) -> bool {
    &&& has_gen(segments, pos.generation_num)
    &&& pos.position + pos.length <= gen_data(segments, pos.generation_num).len()
    &&& gen_data(segments, pos.generation_num).subrange(
        pos.position as int,
        pos.position + pos.length,
    ) == record_bytes(c)
    &&& command_fits(c)
}

/// A single-thread reader over the segment set, with a private cache of
/// open descriptors. Fresh handles for new reader-pool slots are made with
/// [`KvStoreReader::fresh_handle`] and start with an empty cache, so no
/// descriptor is ever shared between slots.
#[derive(Debug)]
pub struct KvStoreReader {
    cached: Vec<u64>,
}

/// Filtering a sequence whose elements all fail the predicate yields the
/// empty sequence.
proof fn lemma_filter_none<A>(s: Seq<A>, pred: spec_fn(A) -> bool)
    requires
        forall|i: int| 0 <= i < s.len() ==> !pred(s[i]),
    ensures
        s.filter(pred) == Seq::<A>::empty(),
    decreases s.len(),
{
    reveal(Seq::filter);
    if s.len() > 0 {
        assert(forall|i: int| 0 <= i < s.drop_last().len() ==> s.drop_last()[i] == s[i]);
        lemma_filter_none(s.drop_last(), pred);
        assert(!pred(s.last()));
    }
}

/// Filtering a sequence whose elements all satisfy the predicate keeps it.
proof fn lemma_filter_all<A>(s: Seq<A>, pred: spec_fn(A) -> bool)
    requires
        forall|i: int| 0 <= i < s.len() ==> pred(s[i]),
    ensures
        s.filter(pred) == s,
    decreases s.len(),
{
    reveal(Seq::filter);
    if s.len() > 0 {
        assert(forall|i: int| 0 <= i < s.drop_last().len() ==> s.drop_last()[i] == s[i]);
        lemma_filter_all(s.drop_last(), pred);
        assert(s.filter(pred) =~= s.drop_last().push(s.last()));
        assert(s.drop_last().push(s.last()) =~= s);
    }
}

impl KvStoreReader {
    /// The generations this handle holds an open descriptor for.
    pub closed spec fn cached_gens(&self) -> Seq<u64> {
        self.cached@
    }

    /// The descriptor cache is ordered by generation.
    pub open spec fn wf(&self) -> bool {
        gens_sorted(self.cached_gens())
    }

    /// A handle with an empty descriptor cache.
    pub fn new() -> (r: KvStoreReader)
        ensures
            r.wf(),
            r.cached_gens().len() == 0,
    {
        KvStoreReader { cached: Vec::new() }
    }

    /// A fresh handle over the same store, as cloning manufactures new
    /// reader-pool slots: it shares the store but starts with an empty
    /// descriptor cache of its own.
    pub fn fresh_handle(&self) -> (r: KvStoreReader)
        ensures
            r.wf(),
            r.cached_gens().len() == 0,
    {
        KvStoreReader { cached: Vec::new() }
    }

    /// Closes every cached descriptor whose generation lies strictly below
    /// the safe point. All generations below it are eligible for deletion
    /// and no index entry references them, so the descriptors are dead
    /// weight keeping deleted files alive.
    pub fn close_stale_handlers(&mut self, safe_point: u64)
        requires
            old(self).wf(),
        ensures
            final(self).wf(),
            final(self).cached_gens() == old(self).cached_gens().filter(
                |g: u64| g >= safe_point,
            ),
            forall|h: u64|
                final(self).cached_gens().contains(h) <==> (old(self).cached_gens().contains(h)
                    && h >= safe_point),
    {
        let ghost orig = self.cached@;
        while self.cached.len() > 0 && self.cached[0] < safe_point
            invariant
                gens_sorted(orig),
                self.cached@ == orig.skip(orig.len() - self.cached@.len()),
                0 <= self.cached@.len() <= orig.len(),
                forall|j: int|
                    0 <= j < orig.len() - self.cached@.len() ==> orig[j] < safe_point,
            decreases self.cached.len(),
        {
            let ghost k = orig.len() - self.cached@.len();
            self.cached.remove(0);
            proof {
                assert(self.cached@ =~= orig.skip(k + 1));
            }
        }
        proof {
            let k = orig.len() - self.cached@.len();
            let pred = |g: u64| g >= safe_point;
            assert(forall|j: int| k <= j < orig.len() ==> orig[j] >= safe_point) by {
                if self.cached@.len() > 0 {
                    assert(forall|j: int| k <= j < orig.len() ==> orig[k] <= #[trigger] orig[j]);
                }
            }
            assert(orig =~= orig.take(k) + orig.skip(k));
            Seq::filter_distributes_over_add(orig.take(k), orig.skip(k), pred);
            lemma_filter_none(orig.take(k), pred);
            lemma_filter_all(orig.skip(k), pred);
            assert(Seq::<u64>::empty() + orig.skip(k) =~= orig.skip(k));
            assert(orig.filter(pred) == orig.skip(k));
            assert forall|h: u64| self.cached@.contains(h) implies (orig.contains(h) && h
                >= safe_point) by {
                let i = choose|i: int| 0 <= i < self.cached@.len() && self.cached@[i] == h;
                assert(orig[k + i] == h);
            }
            assert forall|h: u64| orig.contains(h) && h >= safe_point implies self.cached@.contains(
                h,
            ) by {
                let i = choose|i: int| 0 <= i < orig.len() && orig[i] == h;
                assert(i >= k);
                assert(self.cached@[i - k] == h);
            }
        }
    }

    /// Reads exactly the byte range `pos` names, through this handle's
    /// descriptor cache: stale descriptors are closed first, and a missing
    /// descriptor for the record's generation is opened and cached.
    #[verifier::spinoff_prover]
    #[verifier::rlimit(100)]
    pub fn read_exact(&mut self, segments: &Vec<Segment>, safe_point: u64, pos: CommandPosition) -> (r: Vec<u8>)
        requires
            old(self).wf(),
            segs_sorted(segments@),
            has_gen(segments@, pos.generation_num),
            pos.position + pos.length <= gen_data(segments@, pos.generation_num).len(),
            safe_point <= pos.generation_num,
        ensures
            final(self).wf(),
            r@ == gen_data(segments@, pos.generation_num).subrange(
                pos.position as int,
                pos.position + pos.length,
            ),
            forall|h: u64|
                final(self).cached_gens().contains(h) <==> ((old(self).cached_gens().contains(h)
                    && h >= safe_point) || h == pos.generation_num),
    {
        self.close_stale_handlers(safe_point);
        let ghost mid = self.cached@;
        let g = pos.generation_num;
        let n = self.cached.len();
        let mut i: usize = 0;
        while i < n && self.cached[i] < g
            invariant
                n == self.cached@.len(),
                0 <= i <= n,
                self.wf(),
                forall|j: int| 0 <= j < i ==> self.cached@[j] < g,
            decreases n - i,
        {
            i += 1;
        }
        if i == n || self.cached[i] != g {
            proof {
                assert(forall|j: int|
                    i <= j < self.cached@.len() ==> g <= #[trigger] self.cached@[j]) by {
                    if i < self.cached@.len() {
                        assert(forall|j: int|
                            i < j < self.cached@.len() ==> self.cached@[i as int]
                                < #[trigger] self.cached@[j]);
                    }
                }
            }
            self.cached.insert(i, g);
            proof {
                assert forall|h: u64| self.cached@.contains(h) implies (mid.contains(h) || h
                    == g) by {
                    let j = choose|j: int| 0 <= j < self.cached@.len() && self.cached@[j] == h;
                    if j < i {
                        assert(mid[j] == h);
                    } else if j > i {
                        assert(mid[j - 1] == h);
                    }
                }
                assert forall|h: u64| mid.contains(h) || h == g implies self.cached@.contains(
                    h,
                ) by {
                    if h == g {
                        assert(self.cached@[i as int] == h);
                    } else {
                        let j = choose|j: int| 0 <= j < mid.len() && mid[j] == h;
                        if j < i {
                            assert(self.cached@[j] == h);
                        } else {
                            assert(self.cached@[j + 1] == h);
                        }
                    }
                }
            }
        } else {
            proof {
                assert(self.cached@.contains(g)) by {
                    assert(self.cached@[i as int] == g);
                }
            }
        }
        proof {
            assert(self.wf()) by {
                assert(gens_sorted(self.cached@));
            }
            assert forall|h: u64|
                self.cached@.contains(h) <==> ((old(self).cached_gens().contains(h) && h
                    >= safe_point) || h == g) by {
                assert(mid.contains(h) <==> (old(self).cached_gens().contains(h) && h
                    >= safe_point));
                assert(self.cached@.contains(h) <==> (mid.contains(h) || h == g));
            }
        }
        let idx = match find_segment(segments, g) {
            Some(idx) => idx,
            None => {
                proof {
                    assert(false);
                }
                0
            },
        };
        proof {
            lemma_gen_unique(segments@, g, idx as int);
        }
        let seg_len = segments[idx].data.len();
        let start = pos.position as usize;
        let end = start + (pos.length as usize);
        slice_to_vec(slice_subrange(segments[idx].data.as_slice(), start, end))
    }

    /// Resolves `pos` to the command recorded there. The position must name
    /// a `Set` record — the index never points at anything else — and the
    /// record is deserialized after an exact read of its byte range.
    pub fn read_command(&mut self, segments: &Vec<Segment>, safe_point: u64, pos: CommandPosition) -> (r: Result<Command, KvsError>)
        requires
            old(self).wf(),
            segs_sorted(segments@),
            safe_point <= pos.generation_num,
            exists|c: CommandView| #[trigger] pos_holds(segments@, pos, c) && c is Put,
        ensures
            final(self).wf(),
            r matches Ok(cmd) ==> pos_holds(segments@, pos, cmd@) && cmd@ is Put,
            r.is_ok(),
            forall|h: u64|
                final(self).cached_gens().contains(h) <==> ((old(self).cached_gens().contains(h)
                    && h >= safe_point) || h == pos.generation_num),
    {
        let ghost c = choose|c: CommandView| pos_holds(segments@, pos, c) && c is Put;
        let bytes = self.read_exact(segments, safe_point, pos);
        proof {
            lemma_record_decodes(c, Seq::<u8>::empty());
            assert(bytes@.skip(0) =~= record_bytes(c) + Seq::<u8>::empty());
        }
        match decode_command(bytes.as_slice(), 0) {
            Ok((cmd, _end)) => {
                match cmd {
                    Command::Put { key, value } => Ok(Command::Put { key, value }),
                    Command::Remove { key: _ } => {
                        proof {
                            assert(false);
                        }
                        Err(KvsError::UnexpectedCommandType)
                    },
                }
            },
            Err(_) => {
                proof {
                    assert(false);
                }
                Err(KvsError::StringError(String::new()))
            },
        }
    }
}

} // verus!
