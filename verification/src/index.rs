//! The in-memory index: a lock-free ordered map from key to the position of
//! the key's latest `Set` record.
//!
//! The map itself is `crossbeam_skiplist::SkipMap`; the store reasons about
//! it through `index_contents`, the mathematical map it holds.

use vstd::prelude::*;
use crossbeam_skiplist::SkipMap;

verus! {

/// A byte range `[position, position + length)` inside the segment with the
/// given generation number, identifying one serialized command record.
#[derive(Clone, Copy, PartialEq, Eq, Structural, Debug)]
pub struct CommandPosition {
    /// Generation number of the segment holding the record.
    pub generation_num: u64,
    /// Byte offset of the record's first byte inside the segment.
    pub position: u64,
    /// Number of bytes the record occupies.
    pub length: u64,
}

impl View for CommandPosition {
    type V = (u64, u64, u64);

    open spec fn view(&self) -> (u64, u64, u64) {
        (self.generation_num, self.position, self.length)
    }
}

impl CommandPosition {
    /// Builds the position of a record that spans `start..end` in segment
    /// `generation_num`.
    pub fn new(generation_num: u64, start: u64, end: u64) -> (p: CommandPosition)
        requires
            start <= end,
        ensures
            p@ == (generation_num, start, (end - start) as u64),
    {
        CommandPosition { generation_num, position: start, length: (end - start) as u64 }
    }
}

/// Declares `crossbeam_skiplist::SkipMap`, the lock-free ordered map the
/// index is built on, so that it can stand in fields and signatures.
#[verifier::external_type_specification]
#[verifier::external_body]
#[verifier::reject_recursive_types(K)]
#[verifier::reject_recursive_types(V)]
pub struct ExSkipMap<K, V>(SkipMap<K, V>);

/// The key/position pairs that the skip list holds, as a mathematical map.
pub uninterp spec fn index_contents(m: SkipMap<String, CommandPosition>) -> Map<
    Seq<char>,
    (u64, u64, u64),
>;

/// The empty index map.
pub open spec fn empty_index() -> Map<Seq<char>, (u64, u64, u64)> {
    Map::empty()
}

/// Relies on `SkipMap::new`: a fresh map holds nothing.
#[verifier::external_body]
pub(crate) fn index_new() -> (m: SkipMap<String, CommandPosition>)
    ensures
        index_contents(m) == empty_index(),
{
    SkipMap::new()
}

/// Relies on `SkipMap::get`: it returns the entry associated with `key`
/// when one is present and `None` otherwise.
#[verifier::external_body]
pub(crate) fn index_get(m: &SkipMap<String, CommandPosition>, key: &String) -> (r: Option<
    CommandPosition,
>)
    ensures
        match r {
            Some(p) => index_contents(*m).dom().contains(key@) && index_contents(*m)[key@] == p@,
            None => !index_contents(*m).dom().contains(key@),
        },
{
    m.get(key).map(|e| *e.value())
}

/// Relies on `SkipMap::insert`: it inserts the pair, removing any existing
/// entry with this key first.
#[verifier::external_body]
pub(crate) fn index_insert(
    m: &mut SkipMap<String, CommandPosition>,
    key: String,
    pos: CommandPosition,
)
    ensures
        index_contents(*final(m)) == index_contents(*old(m)).insert(key@, pos@),
{
    m.insert(key, pos);
}

/// Relies on `SkipMap::remove`: it removes the entry with this key and
/// returns it, or returns `None` when no entry has this key.
#[verifier::external_body]
pub(crate) fn index_remove(m: &mut SkipMap<String, CommandPosition>, key: &String) -> (r: Option<
    CommandPosition,
>)
    ensures
        index_contents(*final(m)) == index_contents(*old(m)).remove(key@),
        match r {
            Some(p) => index_contents(*old(m)).dom().contains(key@) && index_contents(*old(m))[key@]
                == p@,
            None => !index_contents(*old(m)).dom().contains(key@),
        },
{
    m.remove(key).map(|e| *e.value())
}

/// Relies on `SkipMap::iter`: it visits every entry of the map exactly once.
#[verifier::external_body]
pub(crate) fn index_entries(m: &SkipMap<String, CommandPosition>) -> (v: Vec<
    (String, CommandPosition),
>)
    ensures
        forall|i: int, j: int| 0 <= i < j < v@.len() ==> v@[i].0@ != v@[j].0@,
        forall|i: int|
            0 <= i < v@.len() ==> #[trigger] index_contents(*m).dom().contains(v@[i].0@)
                && index_contents(*m)[v@[i].0@] == v@[i].1@,
        forall|k: Seq<char>|
            #[trigger] index_contents(*m).dom().contains(k) ==> exists|i: int|
                0 <= i < v@.len() && #[trigger] v@[i].0@ == k,
{
    m.iter().map(|e| (e.key().clone(), *e.value())).collect()
}

} // verus!
