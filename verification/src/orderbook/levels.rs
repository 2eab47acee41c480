//! The price-indexed store behind one side of the book.
//!
//! A side is kept in an `indexmap::IndexMap` from price key to the queue of
//! orders resting at that price. Verus sees that map only through
//! `level_entries`, the sequence of its entries in the map's own order, and
//! through the functions below, each of which makes one call into the map and
//! states what the map's documentation says of it. Nothing in this file is
//! proved; everything else in the crate is proved from it.

use crate::orderbook::identifiable_order::IdentifiableOrder;
use crate::price::{key_le, PriceKey};
use indexmap::IndexMap;
use std::collections::VecDeque;
use vstd::prelude::*;

verus! {

/// One price level in contracts: the price key and the orders resting there,
/// oldest first.
pub type Level = (PriceKey, Seq<IdentifiableOrder>);

/// The map that stores one side of the book.
pub type LevelMap = IndexMap<PriceKey, VecDeque<IdentifiableOrder>>;

/// Makes `indexmap::IndexMap` known to the verifier as an opaque type.
#[verifier::external_type_specification]
#[verifier::external_body]
#[verifier::reject_recursive_types(K)]
#[verifier::reject_recursive_types(V)]
#[verifier::reject_recursive_types(S)]
pub struct ExIndexMap<K, V, S>(IndexMap<K, V, S>);

/// The entries of a level map in the map's order, each queue by its view.
pub uninterp spec fn level_entries(
    m: IndexMap<(usize, u8), VecDeque<IdentifiableOrder>>,
) -> Seq<((usize, u8), Seq<IdentifiableOrder>)>;

/// Whether some entry of `s` has the key `k`.
pub open spec fn has_key(s: Seq<Level>, k: PriceKey) -> bool {
    exists|i: int| 0 <= i < s.len() && (#[trigger] s[i]).0 == k
}

/// Whether the keys of `s` never descend from one entry to a later one.
pub open spec fn keys_ascending(s: Seq<Level>) -> bool {
    forall|i: int, j: int| 0 <= i < j < s.len() ==> key_le((#[trigger] s[i]).0, (#[trigger] s[j]).0)
}

/// `IndexMap::new`: a map with no entries.
#[verifier::external_body]
pub(crate) fn map_new() -> (m: LevelMap)
    ensures
        level_entries(m) == Seq::<Level>::empty(),
{
    IndexMap::new()
}

/// `IndexMap::len`: the number of entries.
#[verifier::external_body]
pub(crate) fn map_len(m: &LevelMap) -> (n: usize)
    ensures
        n == level_entries(*m).len(),
{
    m.len()
}

/// `IndexMap::get_index`: the entry at position `i` of the map's order, or
/// `None` when `i` is not below the length.
#[verifier::external_body]
pub(crate) fn map_get_index(m: &LevelMap, i: usize) -> (r: Option<
    (&PriceKey, &VecDeque<IdentifiableOrder>),
>)
    ensures
        match r {
            Some((k, v)) => {
                &&& i < level_entries(*m).len()
                &&& *k == level_entries(*m)[i as int].0
                &&& v@ == level_entries(*m)[i as int].1
            },
            None => i >= level_entries(*m).len(),
        },
{
    m.get_index(i)
}

/// `IndexMap::get_index_mut`: as `get_index`, with the queue handed out for
/// change in place. The entry keeps its key and its position; no other entry
/// changes.
#[verifier::external_body]
pub(crate) fn map_get_index_mut(m: &mut LevelMap, i: usize) -> (r: Option<
    (&PriceKey, &mut VecDeque<IdentifiableOrder>),
>)
    ensures
        match r {
            Some((k, v)) => {
                &&& i < level_entries(*old(m)).len()
                &&& *k == level_entries(*old(m))[i as int].0
                &&& v@ == level_entries(*old(m))[i as int].1
                &&& level_entries(*final(m)) == level_entries(*old(m)).update(
                    i as int,
                    (*k, final(v)@),
                )
            },
            None => {
                &&& i >= level_entries(*old(m)).len()
                &&& level_entries(*final(m)) == level_entries(*old(m))
            },
        },
{
    m.get_index_mut(i)
}

/// `IndexMap::get_mut`: the queue stored under `key`, handed out for change
/// in place, or `None` when no entry has that key. The entry keeps its key
/// and its position; no other entry changes.
#[verifier::external_body]
pub(crate) fn map_get_mut<'a>(m: &'a mut LevelMap, key: &PriceKey) -> (r: Option<
    &'a mut VecDeque<IdentifiableOrder>,
>)
    ensures
        match r {
            Some(v) => exists|i: int|
                {
                    &&& 0 <= i < level_entries(*old(m)).len()
                    &&& (#[trigger] level_entries(*old(m))[i]).0 == *key
                    &&& v@ == level_entries(*old(m))[i].1
                    &&& level_entries(*final(m)) == level_entries(*old(m)).update(
                        i,
                        (*key, final(v)@),
                    )
                },
            None => {
                &&& !has_key(level_entries(*old(m)), *key)
                &&& level_entries(*final(m)) == level_entries(*old(m))
            },
        },
{
    m.get_mut(key)
}

/// `IndexMap::insert`: where an entry has `key`, its queue is replaced and the
/// old queue returned, the entry staying in place; otherwise the new entry is
/// added last and `None` is returned.
#[verifier::external_body]
pub(crate) fn map_insert(m: &mut LevelMap, key: PriceKey, value: VecDeque<IdentifiableOrder>) -> (r:
    Option<VecDeque<IdentifiableOrder>>)
    ensures
        match r {
            Some(prev) => exists|i: int|
                {
                    &&& 0 <= i < level_entries(*old(m)).len()
                    &&& (#[trigger] level_entries(*old(m))[i]).0 == key
                    &&& prev@ == level_entries(*old(m))[i].1
                    &&& level_entries(*final(m)) == level_entries(*old(m)).update(i, (key, value@))
                },
            None => {
                &&& !has_key(level_entries(*old(m)), key)
                &&& level_entries(*final(m)) == level_entries(*old(m)).push((key, value@))
            },
        },
{
    m.insert(key, value)
}

/// `IndexMap::shift_remove`: the entry under `key` is taken out and its queue
/// returned, the entries behind it moving up by one in unchanged order; `None`
/// and no change when no entry has that key.
#[verifier::external_body]
pub(crate) fn map_shift_remove(m: &mut LevelMap, key: &PriceKey) -> (r: Option<
    VecDeque<IdentifiableOrder>,
>)
    ensures
        match r {
            Some(v) => exists|i: int|
                {
                    &&& 0 <= i < level_entries(*old(m)).len()
                    &&& (#[trigger] level_entries(*old(m))[i]).0 == *key
                    &&& v@ == level_entries(*old(m))[i].1
                    &&& level_entries(*final(m)) == level_entries(*old(m)).remove(i)
                },
            None => {
                &&& !has_key(level_entries(*old(m)), *key)
                &&& level_entries(*final(m)) == level_entries(*old(m))
            },
        },
{
    m.shift_remove(key)
}

/// `IndexMap::par_sort_unstable_keys`: the same entries, rearranged so that
/// their keys ascend in the order of `(usize, u8)` tuples, which compares the
/// first parts and, where they are equal, the second parts. Which of two
/// entries with equal keys comes first is left open.
#[verifier::external_body]
pub(crate) fn map_sort_keys(m: &mut LevelMap)
    ensures
        level_entries(*final(m)).to_multiset() == level_entries(*old(m)).to_multiset(),
        keys_ascending(level_entries(*final(m))),
{
    m.par_sort_unstable_keys()
}

} // verus!
