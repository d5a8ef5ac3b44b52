//! Hash maps from lane words to numbers, with the fast non-cryptographic
//! hasher of `rustc_hash`.

use vstd::prelude::*;
use rustc_hash::FxHashMap;

verus! {

/// The hasher factory of `rustc_hash`, held by every [`FxHashMap`].
#[verifier::external_type_specification]
#[verifier::external_body]
pub struct ExFxBuildHasher(rustc_hash::FxBuildHasher);

/// `FxHashMap::default`: an empty map.
#[verifier::external_body]
pub(crate) fn fx_new() -> (m: FxHashMap<u64, u64>)
    ensures
        m@.dom().is_empty(),
{
    FxHashMap::default()
}

/// `FxHashMap::get`, with the value copied out: the value stored for `key`, if
/// there is one.
#[verifier::external_body]
pub(crate) fn fx_get(m: &FxHashMap<u64, u64>, key: u64) -> (r: Option<u64>)
    ensures
        r == (if m@.contains_key(key) {
            Some(m@[key])
        } else {
            None::<u64>
        }),
{
    m.get(&key).copied()
}

/// `FxHashMap::insert`: `key` maps to `value` afterwards, every other key as
/// before.
#[verifier::external_body]
pub(crate) fn fx_insert(m: &mut FxHashMap<u64, u64>, key: u64, value: u64)
    ensures
        final(m)@ == old(m)@.insert(key, value),
{
    m.insert(key, value);
}

/// `FxHashMap::into_iter`, collected: every entry once, in no particular order.
#[verifier::external_body]
pub(crate) fn fx_entries(m: FxHashMap<u64, u64>) -> (entries: Vec<(u64, u64)>)
    ensures
        forall|i: int|
            0 <= i < entries.len() ==> m@.contains_key((#[trigger] entries@[i]).0)
                && m@[entries@[i].0] == entries@[i].1,
        forall|k: u64|
            m@.contains_key(k) ==> exists|i: int|
                0 <= i < entries.len() && (#[trigger] entries@[i]).0 == k,
        forall|i: int, j: int|
            0 <= i < j < entries.len() ==> (#[trigger] entries@[i]).0 != (
            #[trigger] entries@[j]).0,
{
    m.into_iter().collect()
}

/// The place of every entry of a dictionary.
pub(crate) fn index_table(sorted: &Vec<u64>) -> (m: FxHashMap<u64, u64>)
    requires
        sorted@.no_duplicates(),
    ensures
        indexes(m@, sorted@),
{
    let mut m = fx_new();
    let mut i: usize = 0;
    while i < sorted.len()
        invariant
            i <= sorted.len(),
            sorted@.no_duplicates(),
            forall|v: u64|
                #[trigger] m@.contains_key(v) ==> m@[v] < i && sorted@[m@[v] as int] == v,
            forall|k: int| 0 <= k < i ==> m@.contains_key(#[trigger] sorted@[k]),
        decreases sorted.len() - i,
    {
        fx_insert(&mut m, sorted[i], i as u64);
        i = i + 1;
    }
    m
}

/// `m` maps every entry of `table`, and nothing else, to its place.
pub open spec fn indexes(m: Map<u64, u64>, table: Seq<u64>) -> bool {
    &&& forall|v: u64|
        #[trigger] m.contains_key(v) ==> m[v] < table.len() && table[m[v] as int] == v
    &&& forall|k: int| 0 <= k < table.len() ==> m.contains_key(#[trigger] table[k])
}

} // verus!
