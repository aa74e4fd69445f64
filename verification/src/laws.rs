//! The table-wide guarantees, stated and proved once over any well-formed
//! table.

use vstd::prelude::*;

use crate::builder::has_key;
use crate::map::PhfMap;
use crate::ordered_map::{PhfOrderedMap, PhfOrderedMapEntries};

verus! {

/// Injectivity: in a well-formed map the computed slots of any two distinct
/// stored entries differ.
pub proof fn lemma_slots_injective<V>(m: PhfMap<V>, i: int, j: int)
    requires
        m.wf(),
        0 <= i < m.entries@.len(),
        0 <= j < m.entries@.len(),
        i != j,
    ensures
        m.slot_of(m.entries@[i].0@) != m.slot_of(m.entries@[j].0@),
{
}

/// Injectivity of the order-preserving map: distinct stored entries compute
/// distinct slots.
pub proof fn lemma_ordered_slots_injective<V>(m: PhfOrderedMap<V>, i: int, j: int)
    requires
        m.wf(),
        0 <= i < m.entries@.len(),
        0 <= j < m.entries@.len(),
        i != j,
    ensures
        m.slot_of(m.entries@[i].0@) != m.slot_of(m.entries@[j].0@),
{
    if m.slot_of(m.entries@[i].0@) == m.slot_of(m.entries@[j].0@) {
        assert(m.idxs@[m.slot_of(m.entries@[i].0@)] == i);
        assert(m.idxs@[m.slot_of(m.entries@[j].0@)] == j);
    }
}

/// Round trip: a well-formed map returns, for each stored key, exactly the
/// value stored beside it.  With the builder's guarantee that the stored
/// entries are the input entries, every inserted key looks up to its original
/// value.
pub proof fn lemma_round_trip<V>(m: PhfMap<V>, i: int)
    requires
        m.wf(),
        0 <= i < m.entries@.len(),
    ensures
        m.spec_get(m.entries@[i].0@) == Some(m.entries@[i].1),
{
    m.lemma_keys_distinct();
    assert(m.spec_contains(m.entries@[i].0@));
    let iw = m.index_of(m.entries@[i].0@);
    assert(m.entries@[iw].0@ == m.entries@[i].0@);
}

/// Round trip of the order-preserving map.
pub proof fn lemma_ordered_round_trip<V>(m: PhfOrderedMap<V>, i: int)
    requires
        m.wf(),
        0 <= i < m.entries@.len(),
    ensures
        m.spec_get(m.entries@[i].0@) == Some(m.entries@[i].1),
{
    m.lemma_keys_distinct();
    assert(m.spec_contains(m.entries@[i].0@));
    let iw = m.index_of(m.entries@[i].0@);
    assert(m.entries@[iw].0@ == m.entries@[i].0@);
}

/// Negative lookup: a map that holds only keys of the original entry list
/// reads back nothing for any key outside that list: absent, never a wrong
/// value.
pub proof fn lemma_negative_lookup<V>(m: PhfMap<V>, entries: Seq<(String, V)>, k: Seq<char>)
    requires
        m.wf(),
        forall|k2: Seq<char>| #[trigger] m.spec_contains(k2) ==> has_key(entries, k2),
        !has_key(entries, k),
    ensures
        m.spec_get(k) is None,
        !m.spec_contains(k),
{
}

/// Negative lookup of the order-preserving map: its stored entries are
/// exactly the input entries, so any key outside them is absent.
pub proof fn lemma_ordered_negative_lookup<V>(
    m: PhfOrderedMap<V>,
    entries: Seq<(String, V)>,
    k: Seq<char>,
)
    requires
        m.wf(),
        m.entries@ == entries,
        !has_key(entries, k),
    ensures
        m.spec_get(k) is None,
        !m.spec_contains(k),
{
}

/// Order fidelity: a fresh iterator over an order-preserving map has exactly
/// the map's entry sequence, the definition order, still to return; the
/// builder in turn guarantees that this sequence is the input sequence.
pub proof fn lemma_order_fidelity<V>(m: PhfOrderedMap<V>, it: PhfOrderedMapEntries<'_, V>)
    requires
        it.entries@ == m.entries@,
        it.pos == 0,
        it.end == m.entries@.len(),
    ensures
        it.remaining() == m.entries@,
{
    assert(it.remaining() =~= m.entries@);
}

} // verus!
