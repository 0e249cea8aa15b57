//! The storage engine: a log-structured, compacting key/value store.
//!
//! The store owns the segment directory, the in-memory index, a reader
//! handle used for lookups and compaction reads, the active generation, the
//! uncompacted-byte counter and the published safe point. Its invariant
//! ties all of them to one source of truth: replaying the segments yields
//! exactly the index and counter the store holds, so whatever the store
//! answers now is also what a reopen from the same bytes would answer.

use vstd::prelude::*;
use crossbeam_skiplist::SkipMap;
use crate::codec::{Command, CommandView, record_bytes, command_fits, encode_command, decode_command, lemma_decode_exact};
use crate::disk::{Segment, segs_sorted, has_gen, total_bytes, total_bytes_upto, total_bytes_checked, lemma_gen_unique, lemma_total_bytes_upto_agree, lemma_total_bytes_monotonic, lemma_prefix_gen_data, lemma_sorted_from_adjacent};
use crate::errors::KvsError;
use crate::index::{CommandPosition, index_contents, index_new, index_get, index_insert, index_remove, index_entries};
use crate::reader::{KvStoreReader, pos_holds};
use crate::replay::{LoadState, empty_state, apply_command, replay_segment_from, replay_upto, replay_disk, seg_consumed, seg_consumed_bytes, consumed_upto, consumed_bytes, lemma_replay_end_bounds, lemma_consumed_upto_agree, live_sum, lemma_live_sum_insert, lemma_live_sum_remove, lemma_live_sum_nonneg, lemma_live_sum_entry, lemma_live_sum_congruent, lemma_replay_append_from, lemma_replay_upto_agree};

verus! {

/// Compaction triggers once at least this many stale bytes accumulate.
pub const COMPACTION_THRESHOLD: u64 = 1024 * 1024;

/// The position an index tuple denotes.
pub open spec fn tuple_pos(t: (u64, u64, u64)) -> CommandPosition {
    CommandPosition { generation_num: t.0, position: t.1, length: t.2 }
}

/// Invariants I1 and I3 for one key: the entry points, at or above the
/// safe point, at a readable `Set` record carrying the key's current value.
pub open spec fn entry_ok(segs: Seq<Segment>, st: LoadState, sp: u64, k: Seq<char>) -> bool {
    &&& st.kv.dom().contains(k)
    &&& sp <= st.index[k].0
    &&& pos_holds(
        segs,
        tuple_pos(st.index[k]),
        CommandView::Put { key: k, value: st.kv[k] },
    )
}

/// The replayed state is internally coherent over the directory: the index
/// and the key/value view cover the same keys, and every entry is sound.
pub open spec fn state_ok(segs: Seq<Segment>, st: LoadState, sp: u64) -> bool {
    &&& st.kv.dom() == st.index.dom()
    &&& st.index.dom().finite()
    &&& forall|k: Seq<char>| #[trigger] st.index.dom().contains(k) ==> entry_ok(segs, st, sp, k)
    &&& 0 <= st.uncompacted
}

/// A persistent key/value store backed by append-only log segments, an
/// in-memory index over them, and online compaction.
pub struct KvStore {
    segments: Vec<Segment>,
    index: SkipMap<String, CommandPosition>,
    reader: KvStoreReader,
    current_generation_number: u64,
    uncompacted: u64,
    safe_point: u64,
}

impl KvStore {
    /// The segment directory as the store maintains it.
    pub closed spec fn disk(&self) -> Seq<Segment> {
        self.segments@
    }

    /// The replayed meaning of the directory.
    pub open spec fn load_state(&self) -> LoadState {
        replay_disk(self.disk())
    }

    /// The key/value mapping the store represents.
    pub open spec fn kv(&self) -> Map<Seq<char>, Seq<char>> {
        self.load_state().kv
    }

    /// The in-memory index as a mathematical map.
    pub closed spec fn index_view(&self) -> Map<Seq<char>, (u64, u64, u64)> {
        index_contents(self.index)
    }

    /// The generation the writer currently appends to.
    pub closed spec fn current_gen(&self) -> u64 {
        self.current_generation_number
    }

    /// The published safe point.
    pub closed spec fn safe_point_gen(&self) -> u64 {
        self.safe_point
    }

    /// The writer's estimate of reclaimable bytes.
    pub closed spec fn uncompacted_bytes(&self) -> u64 {
        self.uncompacted
    }

    /// Total size in bytes of the segment directory.
    pub open spec fn disk_size(&self) -> int {
        total_bytes(self.disk())
    }

    /// The store's invariant. The directory is sorted and ends in the
    /// active segment; replaying the directory yields exactly the index
    /// and the uncompacted counter; every index entry points at a readable
    /// `Set` record at or above the safe point; and the stale bytes plus
    /// the live bytes never exceed the directory size.
    pub closed spec fn wf(&self) -> bool {
        let segs = self.segments@;
        let st = replay_disk(segs);
        &&& segs_sorted(segs)
        &&& segs.len() >= 1
        &&& segs.last().generation_num == self.current_generation_number
        &&& seg_consumed(segs.last(), replay_upto(segs, segs.len() - 1))
        &&& index_contents(self.index) == st.index
        &&& self.uncompacted == st.uncompacted
        &&& self.safe_point <= self.current_generation_number
        &&& self.reader.wf()
        &&& state_ok(segs, st, self.safe_point)
        &&& st.uncompacted + live_sum(st.index) <= total_bytes(segs)
        &&& st.uncompacted + live_sum(st.index) == consumed_bytes(segs)
        &&& total_bytes(segs) <= u64::MAX
    }

    /// Whether `open` accepts this directory: ascending generations, a
    /// total size the byte counters can represent, and room for the fresh
    /// active generation.
    pub open spec fn openable(files: Seq<Segment>) -> bool {
        &&& segs_sorted(files)
        &&& total_bytes(files) <= u64::MAX
        &&& (files.len() == 0 || files.last().generation_num < u64::MAX)
    }

    /// Opens a store over the given segment files, ascending by
    /// generation, as read from the data directory. Every segment is
    /// replayed to rebuild the index; inside a segment, replay stops at
    /// the first position where no complete record decodes, so a tail torn
    /// by a crash is ignored and the surviving prefix stays authoritative.
    /// A fresh, empty active segment is opened one generation past the
    /// newest file.
    #[verifier::loop_isolation(false)]
    #[verifier::rlimit(100)]
    #[verifier::spinoff_prover]
    pub fn open(files: Vec<Segment>) -> (r: Result<KvStore, KvsError>)
        ensures
            r matches Ok(s) ==> {
                &&& s.wf()
                &&& s.kv() == replay_disk(files@).kv
                &&& s.uncompacted_bytes() == replay_disk(files@).uncompacted
                &&& s.safe_point_gen() == 0
                &&& s.disk_size() == total_bytes(files@)
                &&& s.current_gen() == (if files@.len() == 0 {
                    1u64
                } else {
                    (files@.last().generation_num + 1) as u64
                })
            },
            r.is_ok() <==> Self::openable(files@),
    {
        let nf = files.len();
        let mut i: usize = 1;
        while i < nf
            invariant
                1 <= i,
                forall|m: int|
                    1 <= m < i ==> files@[m - 1].generation_num
                        < #[trigger] files@[m].generation_num,
            decreases nf - i,
        {
            if files[i - 1].generation_num >= files[i].generation_num {
                return Err(KvsError::StringError("segment files are not sorted by generation".to_owned()));
            }
            i += 1;
        }
        proof {
            assert forall|a: int, b: int| 0 <= a < b < files@.len() implies files@[a].generation_num
                < files@[b].generation_num by {
                lemma_sorted_from_adjacent(files@, a, b);
            }
        }
        let total = match total_bytes_checked(&files) {
            Some(t) => t,
            None => {
                return Err(KvsError::StringError("segment files exceed the supported total size".to_owned()));
            },
        };
        let mut current: u64 = 1;
        if nf > 0 {
            let lg = files[nf - 1].generation_num;
            if lg == u64::MAX {
                return Err(KvsError::StringError("generation numbers are exhausted".to_owned()));
            }
            current = lg + 1;
        }
        let mut index = index_new();
        let mut uncompacted: u64 = 0;
        let mut i: usize = 0;
        while i < nf
            invariant
                i <= nf,
                index_contents(index) == replay_upto(files@, i as int).index,
                uncompacted == replay_upto(files@, i as int).uncompacted,
                state_ok(files@.take(i as int), replay_upto(files@, i as int), 0),
                replay_upto(files@, i as int).uncompacted + live_sum(
                    replay_upto(files@, i as int).index,
                ) <= total_bytes_upto(files@, i as int),
                replay_upto(files@, i as int).uncompacted + live_sum(
                    replay_upto(files@, i as int).index,
                ) == consumed_upto(files@, i as int),
            decreases nf - i,
        {
            let ghost sub = files@.take(i as int + 1);
            let ghost st_in = replay_upto(files@, i as int);
            proof {
                assert(sub.last() == files@[i as int]);
                assert(segs_sorted(sub));
                assert forall|k: Seq<char>| #[trigger] st_in.index.dom().contains(k) implies entry_ok(
                    sub,
                    st_in,
                    0,
                    k,
                ) by {
                    assert(entry_ok(files@.take(i as int), st_in, 0, k));
                    lemma_prefix_gen_data(
                        files@.take(i as int),
                        sub,
                        st_in.index[k].0,
                    );
                }
                lemma_total_bytes_upto_agree(files@, sub, i as int);
                lemma_total_bytes_upto_agree(files@, sub, i as int + 1);
                lemma_total_bytes_monotonic(files@, i as int + 1, files@.len() as int);
                assert(total_bytes(sub) == total_bytes_upto(files@, i as int + 1));
                assert(total_bytes(sub) <= total_bytes(files@));
            }
            load(
                files[i].generation_num,
                &files[i].data,
                &mut index,
                &mut uncompacted,
                Ghost(sub),
                Ghost(st_in),
            );
            proof {
                let res = replay_segment_from(
                    files@[i as int].data@,
                    files@[i as int].generation_num,
                    0,
                    st_in,
                );
                assert(replay_upto(files@, i as int + 1) == res.0);
                assert(res.0.uncompacted + live_sum(res.0.index) <= total_bytes_upto(
                    files@,
                    i as int + 1,
                ));
            }
            i += 1;
        }
        let ghost lf = replay_upto(files@, nf as int);
        let mut segments = files;
        segments.push(Segment { generation_num: current, data: Vec::new() });
        proof {
            assert(files@ =~= files@.take(nf as int));
            let segs = segments@;
            assert(segs.len() == nf + 1);
            assert(segs.last().generation_num == current);
            assert(segs.last().data@ =~= Seq::<u8>::empty());
            assert forall|a: int, b: int| 0 <= a < b < segs.len() implies segs[a].generation_num
                < segs[b].generation_num by {
                if b < nf {
                } else {
                    assert(b == nf);
                    if nf > 0 {
                        if a < nf - 1 {
                            assert(files@[a].generation_num < files@[nf - 1].generation_num);
                        }
                    }
                }
            }
            lemma_replay_upto_agree(segs, files@, nf as int);
            assert(replay_segment_from(segs.last().data@, current, 0, lf) == (lf, 0int));
            assert(replay_upto(segs, nf as int + 1) == lf);
            assert(replay_disk(segs) == lf);
            assert(seg_consumed(segs.last(), replay_upto(segs, segs.len() - 1)));
            assert forall|k: Seq<char>| #[trigger] lf.index.dom().contains(k) implies entry_ok(
                segs,
                lf,
                0,
                k,
            ) by {
                assert(entry_ok(files@, lf, 0, k));
                lemma_prefix_gen_data(files@, segs, lf.index[k].0);
            }
            assert(total_bytes_upto(segs, nf as int) == total_bytes_upto(files@, nf as int)) by {
                lemma_total_bytes_upto_agree(segs, files@, nf as int);
            }
            assert(total_bytes(segs) == total_bytes(files@));
            lemma_consumed_upto_agree(segs, files@, nf as int);
            assert(seg_consumed_bytes(segs, nf as int) == 0);
            assert(consumed_bytes(segs) == consumed_upto(files@, nf as int)) by {
                assert(consumed_upto(segs, nf as int + 1) == consumed_upto(segs, nf as int)
                    + seg_consumed_bytes(segs, nf as int));
            }
        }
        Ok(
            KvStore {
                segments,
                index,
                reader: KvStoreReader::new(),
                current_generation_number: current,
                uncompacted,
                safe_point: 0,
            },
        )
    }

    /// Looks a key up. The index resolves the key to the position of its
    /// latest `Set` record; the record is read back through the store's
    /// reader handle and its value returned. A key absent from the index
    /// is absent from the store. Never fails: every index entry points at
    /// a readable `Set` record.
    pub fn get(&mut self, key: String) -> (r: Result<Option<String>, KvsError>)
        requires
            old(self).wf(),
        ensures
            final(self).wf(),
            final(self).kv() == old(self).kv(),
            final(self).disk() == old(self).disk(),
            final(self).index_view() == old(self).index_view(),
            final(self).current_gen() == old(self).current_gen(),
            final(self).safe_point_gen() == old(self).safe_point_gen(),
            final(self).uncompacted_bytes() == old(self).uncompacted_bytes(),
            match r {
                Ok(Some(v)) => old(self).kv().dom().contains(key@) && old(self).kv()[key@] == v@,
                Ok(None) => !old(self).kv().dom().contains(key@),
                Err(_) => false,
            },
    {
        let ghost st = replay_disk(self.segments@);
        match index_get(&self.index, &key) {
            None => Ok(None),
            Some(pos) => {
                proof {
                    assert(entry_ok(self.segments@, st, self.safe_point, key@));
                    assert(pos == tuple_pos(st.index[key@]));
                    assert(pos_holds(
                        self.segments@,
                        pos,
                        CommandView::Put { key: key@, value: st.kv[key@] },
                    ));
                }
                match self.reader.read_command(&self.segments, self.safe_point, pos) {
                    Ok(cmd) => {
                        proof {
                            crate::codec::lemma_record_bytes_injective(
                                cmd@,
                                CommandView::Put { key: key@, value: st.kv[key@] },
                            );
                        }
                        match cmd {
                            Command::Put { key: _, value } => Ok(Some(value)),
                            Command::Remove { key: _ } => {
                                proof {
                                    assert(false);
                                }
                                Err(KvsError::UnexpectedCommandType)
                            },
                        }
                    },
                    Err(e) => {
                        proof {
                            assert(false);
                        }
                        Err(e)
                    },
                }
            },
        }
    }

    /// Size in bytes of the record that `set(key, value)` appends.
    pub open spec fn put_record_len(key: Seq<char>, value: Seq<char>) -> int {
        record_bytes(CommandView::Put { key, value }).len() as int
    }

    /// Size in bytes of the record that `remove(key)` appends.
    pub open spec fn remove_record_len(key: Seq<char>) -> int {
        record_bytes(CommandView::Remove { key }).len() as int
    }

    /// The machine limits leave room to append this `Set` record and, if
    /// the stale volume crosses the threshold, to compact afterwards.
    pub open spec fn can_set(&self, key: Seq<char>, value: Seq<char>) -> bool {
        &&& self.current_gen() <= u64::MAX - 2
        &&& self.disk_size() + Self::put_record_len(key, value) <= u64::MAX
    }

    /// The machine limits leave room to append this `Remove` record and,
    /// if the stale volume crosses the threshold, to compact afterwards.
    pub open spec fn can_remove(&self, key: Seq<char>) -> bool {
        &&& self.current_gen() <= u64::MAX - 2
        &&& self.disk_size() + Self::remove_record_len(key) <= u64::MAX
    }

    /// Sets the value of a key: serializes a `Set` command, appends it to
    /// the active segment, flushes, and points the index at the new
    /// record. The bytes of any record it supersedes are accounted as
    /// stale, and compaction runs once the stale volume exceeds
    /// [`COMPACTION_THRESHOLD`]. Fails only when a machine limit — the
    /// byte counters or the generation numbers — would overflow.
    #[verifier::rlimit(100)]
    #[verifier::spinoff_prover]
    pub fn set(&mut self, key: String, value: String) -> (r: Result<(), KvsError>)
        requires
            old(self).wf(),
        ensures
            final(self).wf(),
            r.is_ok() <==> old(self).can_set(key@, value@),
            final(self).current_gen() >= old(self).current_gen(),
            final(self).safe_point_gen() >= old(self).safe_point_gen(),
            r.is_ok() ==> {
                &&& final(self).kv() == old(self).kv().insert(key@, value@)
                &&& final(self).uncompacted_bytes() <= COMPACTION_THRESHOLD
                &&& (final(self).uncompacted_bytes() >= old(self).uncompacted_bytes() || final(self).safe_point_gen() > old(self).safe_point_gen())
            },
            r.is_err() ==> {
                &&& final(self).kv() == old(self).kv()
                &&& final(self).disk() == old(self).disk()
                &&& final(self).index_view() == old(self).index_view()
                &&& final(self).current_gen() == old(self).current_gen()
                &&& final(self).safe_point_gen() == old(self).safe_point_gen()
                &&& final(self).uncompacted_bytes() == old(self).uncompacted_bytes()
            },
    {
        if self.current_generation_number > u64::MAX - 2 {
            return Err(KvsError::StringError("generation numbers are exhausted".to_owned()));
        }
        let cmd = Command::set(key, value);
        let rec = encode_command(&cmd);
        let total = match total_bytes_checked(&self.segments) {
            Some(t) => t,
            None => {
                proof {
                    assert(false);
                }
                return Err(KvsError::StringError(String::new()));
            },
        };
        match total.checked_add(rec.len() as u64) {
            Some(_) => {},
            None => {
                return Err(KvsError::StringError("the store exceeds the supported total size".to_owned()));
            },
        }
        let ghost segs0 = self.segments@;
        let ghost l0 = replay_disk(segs0);
        let ghost cv = cmd@;
        let mut active = match self.segments.pop() {
            Some(s) => s,
            None => {
                proof {
                    assert(false);
                }
                return Err(KvsError::StringError(String::new()));
            },
        };
        let ghost data0 = active.data@;
        let start = active.data.len();
        active.data.extend_from_slice(rec.as_slice());
        let end = active.data.len();
        self.segments.push(active);
        let g = self.current_generation_number;
        proof {
            let n = segs0.len() as int;
            let segs1 = self.segments@;
            let st_prior = replay_upto(segs0, n - 1);
            assert(segs1.len() == n);
            assert(forall|j: int| 0 <= j < n - 1 ==> segs1[j] == segs0[j]);
            assert(segs1[n - 1].generation_num == g);
            assert(segs1[n - 1].data@ == data0 + record_bytes(cv));
            assert(segs_sorted(segs1));
            lemma_total_bytes_monotonic(segs0, 0, n - 1);
            assert(total_bytes_upto(segs0, n - 1) + data0.len() == total_bytes(segs0));
            lemma_replay_upto_agree(segs1, segs0, n - 1);
            lemma_replay_append_from(data0, g, 0, st_prior, cv);
            assert(replay_upto(segs1, n) == apply_command(
                l0,
                cv,
                g,
                data0.len() as u64,
                record_bytes(cv).len() as u64,
            )) by {
                assert(replay_disk(segs0) == replay_segment_from(data0, g, 0, st_prior).0);
            }
            lemma_total_bytes_upto_agree(segs1, segs0, n - 1);
            assert(total_bytes(segs1) == total_bytes(segs0) + record_bytes(cv).len());
            lemma_consumed_upto_agree(segs1, segs0, n - 1);
            assert(seg_consumed_bytes(segs0, n - 1) == data0.len());
            assert(seg_consumed_bytes(segs1, n - 1) == data0.len() + record_bytes(cv).len());
            assert(consumed_bytes(segs1) == consumed_bytes(segs0) + record_bytes(cv).len()) by {
                assert(consumed_upto(segs1, n) == consumed_upto(segs1, n - 1)
                    + seg_consumed_bytes(segs1, n - 1));
                assert(consumed_upto(segs0, n) == consumed_upto(segs0, n - 1)
                    + seg_consumed_bytes(segs0, n - 1));
            }
        }
        let p = CommandPosition::new(g, start as u64, end as u64);
        let ghost st_new = apply_command(l0, cv, g, start as u64, (end - start) as u64);
        match cmd {
            Command::Put { key, value: _ } => {
                match index_get(&self.index, &key) {
                    Some(op) => {
                        proof {
                            lemma_live_sum_entry(l0.index, key@);
                        }
                        self.uncompacted = self.uncompacted + op.length;
                    },
                    None => {},
                }
                index_insert(&mut self.index, key, p);
            },
            Command::Remove { key: _ } => {
                proof {
                    assert(false);
                }
            },
        }
        proof {
            let segs1 = self.segments@;
            let n = segs1.len();
            lemma_live_sum_insert(l0.index, cv->Put_key, (g, start as u64, (end - start) as u64));
            lemma_gen_unique(segs1, g, n - 1);
            assert forall|k: Seq<char>| #[trigger] st_new.index.dom().contains(k) implies entry_ok(
                segs1,
                st_new,
                self.safe_point,
                k,
            ) by {
                if k == cv->Put_key {
                    assert(segs1[n - 1].data@.subrange(start as int, end as int)
                        =~= record_bytes(cv));
                } else {
                    assert(entry_ok(segs0, l0, self.safe_point, k));
                    let t = l0.index[k];
                    let j = choose|j: int|
                        0 <= j < segs0.len() && segs0[j].generation_num == t.0;
                    lemma_gen_unique(segs0, t.0, j);
                    lemma_gen_unique(segs1, t.0, j);
                    if j == n - 1 {
                        assert(segs1[j].data@.subrange(t.1 as int, t.1 + t.2)
                            =~= segs0[j].data@.subrange(t.1 as int, t.1 + t.2));
                    }
                }
            }
            assert(self.wf());
        }
        if self.uncompacted > COMPACTION_THRESHOLD {
            match self.compact() {
                Ok(()) => {},
                Err(e) => {
                    proof {
                        assert(false);
                    }
                    return Err(e);
                },
            }
        }
        Ok(())
    }

    /// Removes a key. If the key is absent this fails with `KeyNotFound`
    /// and writes nothing. Otherwise a `Remove` record is appended and
    /// flushed, the index entry is dropped, and both the superseded `Set`
    /// record's bytes and the `Remove` record's own bytes are accounted as
    /// stale — the `Remove` itself is reclaimable at the next compaction,
    /// which runs once the stale volume exceeds [`COMPACTION_THRESHOLD`].
    #[verifier::rlimit(100)]
    #[verifier::spinoff_prover]
    pub fn remove(&mut self, key: String) -> (r: Result<(), KvsError>)
        requires
            old(self).wf(),
        ensures
            final(self).wf(),
            r.is_ok() <==> (old(self).kv().dom().contains(key@) && old(self).can_remove(key@)),
            r matches Err(e) && e is KeyNotFound <==> !old(self).kv().dom().contains(key@),
            final(self).current_gen() >= old(self).current_gen(),
            final(self).safe_point_gen() >= old(self).safe_point_gen(),
            r.is_ok() ==> {
                &&& final(self).kv() == old(self).kv().remove(key@)
                &&& final(self).uncompacted_bytes() <= COMPACTION_THRESHOLD
                &&& (final(self).uncompacted_bytes() >= old(self).uncompacted_bytes() || final(self).safe_point_gen() > old(self).safe_point_gen())
            },
            r.is_err() ==> {
                &&& final(self).kv() == old(self).kv()
                &&& final(self).disk() == old(self).disk()
                &&& final(self).index_view() == old(self).index_view()
                &&& final(self).current_gen() == old(self).current_gen()
                &&& final(self).safe_point_gen() == old(self).safe_point_gen()
                &&& final(self).uncompacted_bytes() == old(self).uncompacted_bytes()
            },
    {
        match index_get(&self.index, &key) {
            None => {
                return Err(KvsError::KeyNotFound);
            },
            Some(_) => {},
        }
        if self.current_generation_number > u64::MAX - 2 {
            return Err(KvsError::StringError("generation numbers are exhausted".to_owned()));
        }
        let cmd = Command::remove(key);
        let rec = encode_command(&cmd);
        let total = match total_bytes_checked(&self.segments) {
            Some(t) => t,
            None => {
                proof {
                    assert(false);
                }
                return Err(KvsError::StringError(String::new()));
            },
        };
        match total.checked_add(rec.len() as u64) {
            Some(_) => {},
            None => {
                return Err(KvsError::StringError("the store exceeds the supported total size".to_owned()));
            },
        }
        let ghost segs0 = self.segments@;
        let ghost l0 = replay_disk(segs0);
        let ghost cv = cmd@;
        let mut active = match self.segments.pop() {
            Some(s) => s,
            None => {
                proof {
                    assert(false);
                }
                return Err(KvsError::StringError(String::new()));
            },
        };
        let ghost data0 = active.data@;
        let start = active.data.len();
        active.data.extend_from_slice(rec.as_slice());
        let end = active.data.len();
        self.segments.push(active);
        let g = self.current_generation_number;
        proof {
            let n = segs0.len() as int;
            let segs1 = self.segments@;
            let st_prior = replay_upto(segs0, n - 1);
            assert(segs1.len() == n);
            assert(forall|j: int| 0 <= j < n - 1 ==> segs1[j] == segs0[j]);
            assert(segs1[n - 1].generation_num == g);
            assert(segs1[n - 1].data@ == data0 + record_bytes(cv));
            assert(segs_sorted(segs1));
            lemma_total_bytes_monotonic(segs0, 0, n - 1);
            assert(total_bytes_upto(segs0, n - 1) + data0.len() == total_bytes(segs0));
            lemma_replay_upto_agree(segs1, segs0, n - 1);
            lemma_replay_append_from(data0, g, 0, st_prior, cv);
            assert(replay_upto(segs1, n) == apply_command(
                l0,
                cv,
                g,
                data0.len() as u64,
                record_bytes(cv).len() as u64,
            )) by {
                assert(replay_disk(segs0) == replay_segment_from(data0, g, 0, st_prior).0);
            }
            lemma_total_bytes_upto_agree(segs1, segs0, n - 1);
            assert(total_bytes(segs1) == total_bytes(segs0) + record_bytes(cv).len());
            lemma_consumed_upto_agree(segs1, segs0, n - 1);
            assert(seg_consumed_bytes(segs0, n - 1) == data0.len());
            assert(seg_consumed_bytes(segs1, n - 1) == data0.len() + record_bytes(cv).len());
            assert(consumed_bytes(segs1) == consumed_bytes(segs0) + record_bytes(cv).len()) by {
                assert(consumed_upto(segs1, n) == consumed_upto(segs1, n - 1)
                    + seg_consumed_bytes(segs1, n - 1));
                assert(consumed_upto(segs0, n) == consumed_upto(segs0, n - 1)
                    + seg_consumed_bytes(segs0, n - 1));
            }
        }
        let ghost st_new = apply_command(l0, cv, g, start as u64, (end - start) as u64);
        match cmd {
            Command::Remove { key } => {
                match index_remove(&mut self.index, &key) {
                    Some(op) => {
                        proof {
                            lemma_live_sum_entry(l0.index, key@);
                            lemma_live_sum_remove(l0.index, key@);
                        }
                        self.uncompacted = self.uncompacted + op.length;
                    },
                    None => {
                        proof {
                            assert(false);
                        }
                    },
                }
                self.uncompacted = self.uncompacted + ((end - start) as u64);
            },
            Command::Put { .. } => {
                proof {
                    assert(false);
                }
            },
        }
        proof {
            let segs1 = self.segments@;
            let n = segs1.len();
            assert forall|k: Seq<char>| #[trigger] st_new.index.dom().contains(k) implies entry_ok(
                segs1,
                st_new,
                self.safe_point,
                k,
            ) by {
                assert(entry_ok(segs0, l0, self.safe_point, k));
                let t = l0.index[k];
                let j = choose|j: int| 0 <= j < segs0.len() && segs0[j].generation_num == t.0;
                lemma_gen_unique(segs0, t.0, j);
                lemma_gen_unique(segs1, t.0, j);
                if j == n - 1 {
                    assert(segs1[j].data@.subrange(t.1 as int, t.1 + t.2)
                        =~= segs0[j].data@.subrange(t.1 as int, t.1 + t.2));
                }
            }
            assert(self.wf());
        }
        if self.uncompacted > COMPACTION_THRESHOLD {
            match self.compact() {
                Ok(()) => {},
                Err(e) => {
                    proof {
                        assert(false);
                    }
                    return Err(e);
                },
            }
        }
        Ok(())
    }

    /// The number of segments currently in the directory.
    pub fn segment_count(&self) -> (n: usize)
        ensures
            n == self.disk().len(),
    {
        self.segments.len()
    }

    /// The generation number of the segment at position `i`.
    pub fn segment_generation(&self, i: usize) -> (g: u64)
        requires
            i < self.disk().len(),
        ensures
            g == self.disk()[i as int].generation_num,
    {
        self.segments[i].generation_num
    }

    /// The byte contents of the segment at position `i`: what its
    /// `<generation>.log` file holds.
    pub fn segment_bytes(&self, i: usize) -> (b: &Vec<u8>)
        requires
            i < self.disk().len(),
        ensures
            b@ == self.disk()[i as int].data@,
    {
        &self.segments[i].data
    }

    /// The generation the writer currently appends to.
    pub fn current_generation_number(&self) -> (g: u64)
        ensures
            g == self.current_gen(),
    {
        self.current_generation_number
    }

    /// Total size in bytes of the segment directory, as a directory scan
    /// would sum it; `None` when it exceeds what a byte counter holds.
    pub fn directory_size(&self) -> (r: Option<u64>)
        ensures
            r matches Some(t) ==> t == self.disk_size(),
            self.disk_size() <= u64::MAX ==> r.is_some(),
    {
        total_bytes_checked(&self.segments)
    }

    /// Tight accounting of reclaimable space: the stale-byte counter plus
    /// the live records' bytes is exactly what replay consumed, and never
    /// more than the directory holds. In a directory without a torn tail
    /// replay consumes every byte, so the counter is then exactly the
    /// directory size minus the live data — precisely what the next
    /// compaction reclaims.
    pub proof fn lemma_uncompacted_exact(&self)
        requires
            self.wf(),
        ensures
            self.uncompacted_bytes() + live_sum(self.load_state().index) == consumed_bytes(
                self.disk(),
            ),
            consumed_bytes(self.disk()) <= self.disk_size(),
    {
        crate::replay::lemma_consumed_le_total(self.disk(), self.disk().len() as int);
    }

    /// Persistence across reopen: feeding the store's own segment
    /// directory back through replay — which is what `open` does with the
    /// files it is given — yields exactly the mapping the store observes
    /// now, and a directory that `open` accepts as long as the generation
    /// counter has not been exhausted. A crash that tears the active
    /// segment's tail only shortens the replayed stream; every mutation
    /// that completed earlier in the stream is unaffected.
    pub proof fn lemma_reopen_observes_same_kv(&self)
        requires
            self.wf(),
        ensures
            replay_disk(self.disk()).kv == self.kv(),
            replay_disk(self.disk()).uncompacted == self.uncompacted_bytes(),
            self.current_gen() < u64::MAX ==> Self::openable(self.disk()),
    {
    }

    /// Soundness of the index against the directory: every entry names a
    /// generation at or above the safe point that is present in the
    /// directory, and its byte range holds exactly the `Set` record of the
    /// key's current value. This is why a read through the index never
    /// touches a deleted segment and never meets anything but a `Set`.
    pub proof fn lemma_index_entries_sound(&self)
        requires
            self.wf(),
        ensures
            self.index_view() == self.load_state().index,
            self.load_state().kv.dom() == self.index_view().dom(),
            forall|k: Seq<char>|
                #[trigger] self.index_view().dom().contains(k) ==> entry_ok(
                    self.disk(),
                    self.load_state(),
                    self.safe_point_gen(),
                    k,
                ),
    {
    }

    /// Rewrites the live set into a single fresh segment and retires all
    /// older ones. Each live record's bytes are copied verbatim — no
    /// decode/re-encode round trip — through the store's reader handle,
    /// the index entry is repointed at the copy, the safe point advances
    /// to the compaction generation, stale descriptors are closed, and the
    /// superseded segments are deleted. Subsequent writes go to a new
    /// active segment one generation further on. Fails only when the
    /// generation counter has no room left.
    #[verifier::loop_isolation(false)]
    #[verifier::rlimit(100)]
    #[verifier::spinoff_prover]
    pub fn compact(&mut self) -> (r: Result<(), KvsError>)
        requires
            old(self).wf(),
        ensures
            final(self).wf(),
            r.is_ok() <==> old(self).current_gen() <= u64::MAX - 2,
            final(self).current_gen() >= old(self).current_gen(),
            final(self).safe_point_gen() >= old(self).safe_point_gen(),
            r.is_ok() ==> {
                &&& final(self).kv() == old(self).kv()
                &&& final(self).current_gen() == old(self).current_gen() + 2
                &&& final(self).safe_point_gen() == old(self).current_gen() + 1
                &&& final(self).uncompacted_bytes() == 0
                &&& final(self).disk_size() + old(self).uncompacted_bytes() <= old(self).disk_size()
                &&& (old(self).uncompacted_bytes() > 0 ==> final(self).disk_size() < old(self).disk_size())
                &&& final(self).disk_size() == consumed_bytes(old(self).disk()) - old(self).uncompacted_bytes()
            },
            r.is_err() ==> {
                &&& final(self).kv() == old(self).kv()
                &&& final(self).disk() == old(self).disk()
                &&& final(self).index_view() == old(self).index_view()
                &&& final(self).current_gen() == old(self).current_gen()
                &&& final(self).safe_point_gen() == old(self).safe_point_gen()
                &&& final(self).uncompacted_bytes() == old(self).uncompacted_bytes()
            },
    {
        if self.current_generation_number > u64::MAX - 2 {
            return Err(KvsError::StringError("generation numbers are exhausted".to_owned()));
        }
        let compaction_generation_number = self.current_generation_number + 1;
        let next_generation_number = self.current_generation_number + 2;
        let ghost segs0 = self.segments@;
        let ghost l0 = replay_disk(segs0);
        let ghost sp0 = self.safe_point;
        let entries = index_entries(&self.index);
        let mut compaction_data: Vec<u8> = Vec::new();
        let ghost mut cst = empty_state();
        let mut i: usize = 0;
        while i < entries.len()
            invariant
                i <= entries@.len(),
                self.segments@ == segs0,
                self.safe_point == sp0,
                self.current_generation_number == old(self).current_gen(),
                self.reader.wf(),
                replay_segment_from(
                    compaction_data@,
                    compaction_generation_number,
                    0,
                    empty_state(),
                ) == (cst, compaction_data@.len() as int),
                cst.uncompacted == 0,
                cst.kv.dom() == cst.index.dom(),
                cst.index.dom().finite(),
                live_sum(cst.index) == compaction_data@.len(),
                forall|j: int|
                    0 <= j < i ==> cst.index.dom().contains(#[trigger] entries@[j].0@),
                forall|k: Seq<char>|
                    #[trigger] cst.index.dom().contains(k) ==> exists|j: int|
                        0 <= j < i && entries@[j].0@ == k,
                forall|k: Seq<char>|
                    #[trigger] cst.index.dom().contains(k) ==> {
                        &&& l0.index.dom().contains(k)
                        &&& cst.kv[k] == l0.kv[k]
                        &&& cst.index[k].0 == compaction_generation_number
                        &&& cst.index[k].1 + cst.index[k].2 <= compaction_data@.len()
                        &&& compaction_data@.subrange(
                            cst.index[k].1 as int,
                            cst.index[k].1 + cst.index[k].2,
                        ) == record_bytes(CommandView::Put { key: k, value: cst.kv[k] })
                        &&& command_fits(CommandView::Put { key: k, value: cst.kv[k] })
                        &&& cst.index[k].2 == l0.index[k].2
                    },
                index_contents(self.index) == l0.index.union_prefer_right(cst.index),
            decreases entries@.len() - i,
        {
            let key = entries[i].0.clone();
            let pos = entries[i].1;
            proof {
                assert(l0.index.dom().contains(key@));
                assert(entry_ok(segs0, l0, sp0, key@));
                assert(pos == tuple_pos(l0.index[key@]));
            }
            let p_new = compaction_data.len();
            let ghost comp0 = compaction_data@;
            let bytes = self.reader.read_exact(&self.segments, self.safe_point, pos);
            compaction_data.extend_from_slice(bytes.as_slice());
            let end = compaction_data.len();
            let ghost cv = CommandView::Put { key: key@, value: l0.kv[key@] };
            proof {
                assert(bytes@ == record_bytes(cv));
                assert(compaction_data@ == comp0 + record_bytes(cv));
                assert(!cst.index.dom().contains(key@)) by {
                    if cst.index.dom().contains(key@) {
                        let j = choose|j: int| 0 <= j < i && entries@[j].0@ == key@;
                        assert(entries@[j].0@ != entries@[i as int].0@);
                    }
                }
                lemma_replay_append_from(
                    comp0,
                    compaction_generation_number,
                    0,
                    empty_state(),
                    cv,
                );
                lemma_live_sum_insert(
                    cst.index,
                    key@,
                    (compaction_generation_number, p_new as u64, (end - p_new) as u64),
                );
            }
            let npos = CommandPosition::new(
                compaction_generation_number,
                p_new as u64,
                end as u64,
            );
            index_insert(&mut self.index, key, npos);
            let ghost cst_next = apply_command(
                cst,
                cv,
                compaction_generation_number,
                p_new as u64,
                (end - p_new) as u64,
            );
            proof {
                assert(index_contents(self.index) =~= l0.index.union_prefer_right(
                    cst_next.index,
                ));
                assert forall|k: Seq<char>|
                    #[trigger] cst_next.index.dom().contains(k) implies {
                    &&& cst_next.index[k].1 + cst_next.index[k].2 <= compaction_data@.len()
                    &&& compaction_data@.subrange(
                        cst_next.index[k].1 as int,
                        cst_next.index[k].1 + cst_next.index[k].2,
                    ) == record_bytes(CommandView::Put { key: k, value: cst_next.kv[k] })
                } by {
                    if k != key@ {
                        assert(cst.index.dom().contains(k));
                        assert(compaction_data@.subrange(
                            cst.index[k].1 as int,
                            cst.index[k].1 + cst.index[k].2,
                        ) =~= comp0.subrange(
                            cst.index[k].1 as int,
                            cst.index[k].1 + cst.index[k].2,
                        ));
                    } else {
                        assert(compaction_data@.subrange(p_new as int, end as int)
                            =~= record_bytes(cv));
                    }
                }
                cst = cst_next;
            }
            i += 1;
        }
        let comp_len = compaction_data.len();
        let ghost comp_seq = compaction_data@;
        proof {
            assert forall|k: Seq<char>| l0.index.dom().contains(k) implies cst.index.dom().contains(
                k,
            ) by {
                let j = choose|j: int|
                    0 <= j < entries@.len() && #[trigger] entries@[j].0@ == k;
                assert(cst.index.dom().contains(entries@[j].0@));
            }
            assert(index_contents(self.index) =~= cst.index);
            assert(cst.index.dom() =~= l0.index.dom());
            lemma_live_sum_congruent(l0.index, cst.index);
            assert(cst.kv =~= l0.kv);
        }
        let mut new_segments: Vec<Segment> = Vec::new();
        new_segments.push(
            Segment { generation_num: compaction_generation_number, data: compaction_data },
        );
        new_segments.push(Segment { generation_num: next_generation_number, data: Vec::new() });
        self.segments = new_segments;
        self.current_generation_number = next_generation_number;
        self.safe_point = compaction_generation_number;
        self.reader.close_stale_handlers(compaction_generation_number);
        self.uncompacted = 0;
        proof {
            let segs = self.segments@;
            assert(segs.len() == 2);
            assert(segs[0].data@ == comp_seq);
            assert(segs[1].data@ =~= Seq::<u8>::empty());
            assert(segs_sorted(segs));
            assert(replay_upto(segs, 0) == empty_state());
            assert(replay_upto(segs, 1) == cst);
            assert(replay_segment_from(segs[1].data@, next_generation_number, 0, cst) == (
                cst,
                0int,
            ));
            assert(replay_disk(segs) == cst);
            assert(seg_consumed(segs.last(), replay_upto(segs, 1)));
            lemma_gen_unique(segs, compaction_generation_number, 0);
            assert forall|k: Seq<char>| #[trigger] cst.index.dom().contains(k) implies entry_ok(
                segs,
                cst,
                compaction_generation_number,
                k,
            ) by {
                assert(has_gen(segs, compaction_generation_number)) by {
                    assert(segs[0].generation_num == compaction_generation_number);
                }
            }
            assert(total_bytes(segs) == comp_len as int) by {
                assert(total_bytes_upto(segs, 0) == 0);
                assert(total_bytes_upto(segs, 1) == comp_seq.len());
                assert(total_bytes_upto(segs, 2) == comp_seq.len());
            }
            assert(consumed_bytes(segs) == comp_seq.len()) by {
                assert(seg_consumed_bytes(segs, 0) == comp_seq.len());
                assert(seg_consumed_bytes(segs, 1) == 0);
                assert(consumed_upto(segs, 0) == 0);
                assert(consumed_upto(segs, 1) == comp_seq.len());
                assert(consumed_upto(segs, 2) == comp_seq.len());
            }
            assert(live_sum(l0.index) + l0.uncompacted <= total_bytes(segs0));
        }
        Ok(())
    }
}

/// Replays one segment into the shared index, as `open` does for each file
/// found on disk, and adds the stale bytes it notices to `uncompacted`.
/// Replay stops silently at the first position where no complete record
/// decodes: a torn tail survives as ignored bytes.
#[verifier::loop_isolation(false)]
#[verifier::spinoff_prover]
pub(crate) fn load(
    generation_num: u64,
    data: &Vec<u8>,
    index: &mut SkipMap<String, CommandPosition>,
    uncompacted: &mut u64,
    Ghost(segs): Ghost<Seq<Segment>>,
    Ghost(st0): Ghost<LoadState>,
)
    requires
        segs.len() >= 1,
        segs_sorted(segs),
        segs.last().generation_num == generation_num,
        segs.last().data@ == data@,
        index_contents(*old(index)) == st0.index,
        *old(uncompacted) == st0.uncompacted,
        state_ok(segs, st0, 0),
        st0.uncompacted + live_sum(st0.index) <= total_bytes_upto(segs, segs.len() - 1),
        total_bytes(segs) <= u64::MAX,
    ensures
        ({
            let res = replay_segment_from(data@, generation_num, 0, st0);
            &&& index_contents(*final(index)) == res.0.index
            &&& *final(uncompacted) == res.0.uncompacted
            &&& state_ok(segs, res.0, 0)
            &&& 0 <= res.1 <= data@.len()
            &&& res.0.uncompacted + live_sum(res.0.index) <= total_bytes_upto(
                segs,
                segs.len() - 1,
            ) + res.1
            &&& res.0.uncompacted + live_sum(res.0.index) == st0.uncompacted + live_sum(
                st0.index,
            ) + res.1
        }),
{
    let n = data.len();
    let mut pos: usize = 0;
    let mut done: bool = false;
    let ghost mut st = st0;
    proof {
        assert(total_bytes_upto(segs, segs.len() - 1) + data@.len() == total_bytes(segs));
        lemma_live_sum_nonneg(st0.index);
    }
    while !done && pos < n
        invariant
            pos <= n,
            index_contents(*index) == st.index,
            *uncompacted == st.uncompacted,
            replay_segment_from(data@, generation_num, 0, st0) == replay_segment_from(
                data@,
                generation_num,
                pos as int,
                st,
            ),
            state_ok(segs, st, 0),
            st.uncompacted + live_sum(st.index) <= total_bytes_upto(segs, segs.len() - 1)
                + pos,
            st.uncompacted + live_sum(st.index) == st0.uncompacted + live_sum(st0.index)
                + pos,
            done ==> replay_segment_from(data@, generation_num, pos as int, st) == (
                st,
                pos as int,
            ),
        decreases n - pos, (if done { 0int } else { 1int }),
    {
        match decode_command(data.as_slice(), pos) {
            Ok((cmd, end)) => {
                let ghost cv = cmd@;
                let ghost nrec = end - pos;
                proof {
                    lemma_decode_exact(data@.skip(pos as int), cv, nrec as int);
                    assert(data@.subrange(pos as int, end as int) =~= data@.skip(
                        pos as int,
                    ).subrange(0, nrec as int));
                    lemma_gen_unique(segs, generation_num, segs.len() - 1);
                }
                let ghost st_next = apply_command(
                    st,
                    cv,
                    generation_num,
                    pos as u64,
                    nrec as u64,
                );
                proof {
                    assert(replay_segment_from(data@, generation_num, pos as int, st)
                        == replay_segment_from(data@, generation_num, end as int, st_next));
                }
                match cmd {
                    Command::Put { key, value: _ } => {
                        match index_get(index, &key) {
                            Some(op) => {
                                proof {
                                    lemma_live_sum_entry(st.index, key@);
                                }
                                *uncompacted = *uncompacted + op.length;
                            },
                            None => {},
                        }
                        let p = CommandPosition::new(generation_num, pos as u64, end as u64);
                        index_insert(index, key, p);
                        proof {
                            lemma_live_sum_insert(
                                st.index,
                                key@,
                                (generation_num, pos as u64, nrec as u64),
                            );
                            assert forall|k: Seq<char>|
                                #[trigger] st_next.index.dom().contains(k) implies entry_ok(
                                segs,
                                st_next,
                                0,
                                k,
                            ) by {
                                if k != key@ {
                                    assert(entry_ok(segs, st, 0, k));
                                }
                            }
                        }
                    },
                    Command::Remove { key } => {
                        match index_remove(index, &key) {
                            Some(op) => {
                                proof {
                                    lemma_live_sum_entry(st.index, key@);
                                    lemma_live_sum_remove(st.index, key@);
                                }
                                *uncompacted = *uncompacted + op.length;
                            },
                            None => {
                                proof {
                                    assert(st_next.index =~= st.index);
                                }
                            },
                        }
                        proof {
                            assert(total_bytes_upto(segs, segs.len() - 1) + data@.len()
                                == total_bytes(segs));
                            lemma_live_sum_nonneg(st_next.index);
                        }
                        *uncompacted = *uncompacted + ((end - pos) as u64);
                        proof {
                            assert forall|k: Seq<char>|
                                #[trigger] st_next.index.dom().contains(k) implies entry_ok(
                                segs,
                                st_next,
                                0,
                                k,
                            ) by {
                                assert(entry_ok(segs, st, 0, k));
                            }
                        }
                    },
                }
                pos = end;
                proof {
                    st = st_next;
                }
            },
            Err(_) => {
                proof {
                    assert(replay_segment_from(data@, generation_num, pos as int, st) == (
                        st,
                        pos as int,
                    ));
                }
                done = true;
            },
        }
    }
}

} // verus!
