//! Laws of the key/value view.
//!
//! The contracts of `set`, `get` and `remove` describe the store as one
//! mathematical map. These lemmas state the store-level guarantees that
//! follow for sequences of operations, over that same map.

use vstd::prelude::*;

verus! {

/// After `set(k, v)`, with no intervening write to `k`, `get(k)` observes
/// `v`: the map a successful `set` leaves behind holds `v` at `k`.
pub proof fn lemma_get_after_set(m: Map<Seq<char>, Seq<char>>, k: Seq<char>, v: Seq<char>)
    ensures
        m.insert(k, v).dom().contains(k),
        m.insert(k, v)[k] == v,
{
}

/// After `remove(k)`, with no intervening `set(k, _)`, `get(k)` observes
/// nothing: the map a successful `remove` leaves behind has no entry at `k`.
pub proof fn lemma_get_after_remove(m: Map<Seq<char>, Seq<char>>, k: Seq<char>)
    ensures
        !m.remove(k).dom().contains(k),
{
}

/// The latest write wins: two `set`s to the same key leave exactly the
/// state of the later one, whatever was written before.
pub proof fn lemma_latest_set_wins(
    m: Map<Seq<char>, Seq<char>>,
    k: Seq<char>,
    v1: Seq<char>,
    v2: Seq<char>,
)
    ensures
        m.insert(k, v1).insert(k, v2) == m.insert(k, v2),
{
    assert(m.insert(k, v1).insert(k, v2) =~= m.insert(k, v2));
}

/// Writes to disjoint keys commute and neither is lost: however `set`s of
/// different keys interleave, each key ends up with its own value.
pub proof fn lemma_disjoint_sets_commute(
    m: Map<Seq<char>, Seq<char>>,
    k1: Seq<char>,
    v1: Seq<char>,
    k2: Seq<char>,
    v2: Seq<char>,
)
    requires
        k1 != k2,
    ensures
        m.insert(k1, v1).insert(k2, v2) == m.insert(k2, v2).insert(k1, v1),
        m.insert(k1, v1).insert(k2, v2)[k1] == v1,
        m.insert(k1, v1).insert(k2, v2)[k2] == v2,
{
    assert(m.insert(k1, v1).insert(k2, v2) =~= m.insert(k2, v2).insert(k1, v1));
}

} // verus!
