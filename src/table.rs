//! A hash table from keys to aggregates, backed by `rustc_hash::FxHashMap`.
use vstd::prelude::*;
use rustc_hash::FxHashMap;
use crate::aggregate::Aggregate;

verus! {

/// The aggregates of the keys seen so far, keyed by the key's bytes.
#[verifier::external_body]
pub struct KeyTable {
    map: FxHashMap<Vec<u8>, Aggregate>,
}

/// What the table holds: each key's bytes mapped to its aggregate.
pub uninterp spec fn table_contents(t: KeyTable) -> Map<Seq<u8>, Aggregate>;

impl View for KeyTable {
    type V = Map<Seq<u8>, Aggregate>;

    open spec fn view(&self) -> Map<Seq<u8>, Aggregate> {
        table_contents(*self)
    }
}

/// Relies on `FxHashMap::default`: a new map holds nothing.
#[verifier::external_body]
pub(crate) fn table_new() -> (r: KeyTable)
    ensures
        table_contents(r).dom() == Set::<Seq<u8>>::empty(),
{
    KeyTable { map: FxHashMap::default() }
}

/// Relies on `HashMap::get`: the value stored under a key equal to `key`, if any.
#[verifier::external_body]
pub(crate) fn table_get(t: &KeyTable, key: &[u8]) -> (r: Option<Aggregate>)
    ensures
        r == (if table_contents(*t).contains_key(key@) { Some(table_contents(*t)[key@]) } else { None::<Aggregate> }),
{
    t.map.get(key).copied()
}

/// Relies on `HashMap::insert`: afterwards `key` maps to `a`, other keys are untouched.
#[verifier::external_body]
pub(crate) fn table_insert(t: &mut KeyTable, key: &[u8], a: Aggregate)
    ensures
        table_contents(*final(t)) == table_contents(*old(t)).insert(key@, a),
{
    t.map.insert(key.to_vec(), a);
}

/// Relies on `HashMap::keys`: every key of the map exactly once.
#[verifier::external_body]
pub(crate) fn table_keys(t: &KeyTable) -> (r: Vec<Vec<u8>>)
    ensures
        forall|i: int| 0 <= i < r.len() ==> table_contents(*t).contains_key(#[trigger] r@[i]@),
        forall|i: int, j: int| 0 <= i < j < r.len() ==> r@[i]@ != r@[j]@,
        forall|k: Seq<u8>| table_contents(*t).contains_key(k) ==> exists|i: int| 0 <= i < r.len() && #[trigger] r@[i]@ == k,
{
    t.map.keys().cloned().collect()
}

impl KeyTable {
    /// The aggregate of `key`, if the key was seen.
    pub fn lookup(&self, key: &[u8]) -> (r: Option<Aggregate>)
        ensures
            r == (if self@.contains_key(key@) { Some(self@[key@]) } else { None::<Aggregate> }),
    {
        table_get(self, key)
    }
}

} // verus!
