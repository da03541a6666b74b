use vstd::prelude::*;

verus! {

/// An occupant of a slot: a key/value pair together with the key's cached
/// digest and the entry's probe-sequence length (its distance from the slot
/// the digest points at).
pub struct Entry<K, V> {
    pub key: K,
    pub value: V,
    pub hash: u64,
    pub psl: usize,
}

impl<K, V> Entry<K, V> {
    pub fn new(key: K, value: V, hash: u64, psl: usize) -> (r: Self)
        ensures
            r.key == key,
            r.value == value,
            r.hash == hash,
            r.psl == psl,
    {
        Entry { key, value, hash, psl }
    }
}

/// One cell of the backing array: either free, or holding an [`Entry`].
pub enum MapEntry<K, V> {
    VacantEntry,
    Occupied(Entry<K, V>),
}

impl<K, V> Default for MapEntry<K, V> {
    /// A fresh cell is vacant.
    fn default() -> (r: Self)
        ensures
            r is VacantEntry,
    {
        MapEntry::VacantEntry
    }
}

} // verus!
