use crate::fx_build_hasher::FxBuildHasher;
use crate::fx_build_hasher::HashProvider;
use crate::key::MapKey;
use crate::map_entry::Entry;
use crate::map_entry::MapEntry;
use vstd::pervasive::unreached;
use vstd::pervasive::VecAdditionalExecFns;
use vstd::prelude::*;

verus! {

/// The capacity a table grows to on its first insertion.
pub const INITIAL_SIZE: usize = 4;

/// An open-addressing hash table with a probe-sequence-length (PSL) based
/// collision policy in the Robin Hood style.
///
/// Every entry lives in the flat backing array.  An entry's *home* slot is
/// its digest taken modulo the capacity; on a collision the entry walks
/// forward from its home, wrapping around at the end of the array, until it
/// finds a vacant slot or displaces an occupant that sits closer to its own
/// home (the occupant is then re-inserted by the same walk, starting over
/// from its own home).  Probing wraps modulo the capacity throughout, so a
/// probe never falls off the end of the array.
pub struct FxHashMap<K, V, H> {
    inner: Vec<MapEntry<K, V>>,
    hasher_builder: H,
    num_items: usize,
}

/// Whether slot `i` is occupied.
pub open spec fn slot_occ<K, V>(s: Seq<MapEntry<K, V>>, i: int) -> bool {
    s[i] is Occupied
}

/// The occupant of slot `i`.
pub open spec fn slot_entry<K, V>(s: Seq<MapEntry<K, V>>, i: int) -> Entry<K, V> {
    s[i]->Occupied_0
}

/// The byte string of the key in slot `i`.
pub open spec fn slot_kb<K: MapKey, V>(s: Seq<MapEntry<K, V>>, i: int) -> Seq<u8> {
    slot_entry(s, i).key.key_bytes()
}

/// The home slot of the occupant of slot `i`.
pub open spec fn slot_home<K, V>(s: Seq<MapEntry<K, V>>, i: int) -> int {
    slot_entry(s, i).hash as int % (s.len() as int)
}

/// The number of slots a forward walk from `from` takes to reach `to`,
/// wrapping at `cap`.
pub open spec fn dist(cap: int, from: int, to: int) -> int {
    if from <= to {
        to - from
    } else {
        to + cap - from
    }
}

/// The slots-wide placement invariant, seen from slot `i` towards slot `j`:
/// if slot `i` is occupied, every slot on the walk from its home up to it is
/// occupied by an entry that has walked at least as far from its own home.
/// An entry therefore never sits on the near side of a vacancy or of an
/// entry closer to its own home, which is what lets a lookup stop early.
pub open spec fn path_ok<K: MapKey, V>(s: Seq<MapEntry<K, V>>, i: int, j: int) -> bool {
    let cap = s.len() as int;
    (slot_occ(s, i) && dist(cap, slot_home(s, i), j) < dist(cap, slot_home(s, i), i)) ==> {
        &&& slot_occ(s, j)
        &&& slot_entry(s, j).psl >= dist(cap, slot_home(s, i), j)
    }
}

/// No two occupied slots hold the same key.
pub open spec fn keys_distinct<K: MapKey, V>(s: Seq<MapEntry<K, V>>, i: int, j: int) -> bool {
    (slot_occ(s, i) && slot_occ(s, j) && i != j) ==> slot_kb(s, i) != slot_kb(s, j)
}

/// The occupant of slot `i` carries the digest of its own key under
/// provider `hb`, and its recorded PSL is its distance from its home.
pub open spec fn slot_entry_ok<K: MapKey, V, H: HashProvider>(
    s: Seq<MapEntry<K, V>>,
    hb: H,
    i: int,
) -> bool {
    slot_occ(s, i) ==> {
        &&& slot_entry(s, i).hash == hb.digest_spec(slot_kb(s, i))
        &&& slot_entry(s, i).psl == dist(s.len() as int, slot_home(s, i), i)
    }
}

/// How many slots of `s` are occupied.
pub open spec fn count_occ<K, V>(s: Seq<MapEntry<K, V>>) -> int
    decreases s.len(),
{
    if s.len() == 0 {
        0
    } else {
        count_occ(s.drop_last()) + if s.last() is Occupied {
            1int
        } else {
            0int
        }
    }
}

/// Whether some occupied slot of `s` holds the key with bytes `kb`.
pub open spec fn contains_kb<K: MapKey, V>(s: Seq<MapEntry<K, V>>, kb: Seq<u8>) -> bool {
    exists|i: int| 0 <= i < s.len() && slot_occ(s, i) && slot_kb(s, i) == kb
}

/// The slot holding the key with bytes `kb`.
pub open spec fn index_of_kb<K: MapKey, V>(s: Seq<MapEntry<K, V>>, kb: Seq<u8>) -> int {
    choose|i: int| 0 <= i < s.len() && slot_occ(s, i) && slot_kb(s, i) == kb
}

/// The key/value association a backing array holds.
pub open spec fn map_of<K: MapKey, V>(s: Seq<MapEntry<K, V>>) -> Map<Seq<u8>, V> {
    Map::new(
        |kb: Seq<u8>| contains_kb(s, kb),
        |kb: Seq<u8>| slot_entry(s, index_of_kb(s, kb)).value,
    )
}

/// Occupied slots are at most all slots.
pub proof fn lemma_count_occ_le_len<K, V>(s: Seq<MapEntry<K, V>>)
    ensures
        0 <= count_occ(s) <= s.len(),
    decreases s.len(),
{
    if s.len() > 0 {
        lemma_count_occ_le_len(s.drop_last());
    }
}

/// A backing array with every slot occupied has as many occupants as slots.
pub proof fn lemma_count_occ_full<K, V>(s: Seq<MapEntry<K, V>>)
    requires
        forall|i: int| 0 <= i < s.len() ==> slot_occ(s, i),
    ensures
        count_occ(s) == s.len(),
    decreases s.len(),
{
    if s.len() > 0 {
        let t = s.drop_last();
        assert forall|i: int| 0 <= i < t.len() implies slot_occ(t, i) by {
            assert(slot_occ(s, i));
            assert(t[i] == s[i]);
        }
        lemma_count_occ_full(t);
        assert(slot_occ(s, s.len() - 1));
    }
}

/// Replacing the occupant of a slot with another occupant keeps the count.
pub proof fn lemma_count_occ_update<K, V>(s: Seq<MapEntry<K, V>>, i: int, e: MapEntry<K, V>)
    requires
        0 <= i < s.len(),
        (s[i] is Occupied) == (e is Occupied),
    ensures
        count_occ(s.update(i, e)) == count_occ(s),
    decreases s.len(),
{
    let t = s.update(i, e);
    if i == s.len() - 1 {
        assert(t.drop_last() =~= s.drop_last());
    } else {
        assert(t.drop_last() =~= s.drop_last().update(i, e));
        lemma_count_occ_update(s.drop_last(), i, e);
    }
}

/// Filling a vacant slot raises the count by one.
pub proof fn lemma_count_occ_fill<K, V>(s: Seq<MapEntry<K, V>>, i: int, e: MapEntry<K, V>)
    requires
        0 <= i < s.len(),
        !(s[i] is Occupied),
        e is Occupied,
    ensures
        count_occ(s.update(i, e)) == count_occ(s) + 1,
    decreases s.len(),
{
    let t = s.update(i, e);
    if i == s.len() - 1 {
        assert(t.drop_last() =~= s.drop_last());
    } else {
        assert(t.drop_last() =~= s.drop_last().update(i, e));
        lemma_count_occ_fill(s.drop_last(), i, e);
    }
}

impl<K: MapKey, V, H: HashProvider> FxHashMap<K, V, H> {
    /// The capacity: the length of the backing array.
    pub closed spec fn spec_cap(&self) -> int {
        self.inner@.len() as int
    }

    /// The number of entries.
    pub closed spec fn spec_len(&self) -> int {
        self.num_items as int
    }

    /// The hash provider in use.
    pub closed spec fn spec_hasher(&self) -> H {
        self.hasher_builder
    }

    /// Well-formedness: every occupied slot carries a correct digest and
    /// PSL, the walk from any occupant's home to its slot meets only
    /// occupants at least as far from their own homes, keys are unique, and
    /// the item counter counts the occupied slots.
    pub closed spec fn wf(&self) -> bool {
        let s = self.inner@;
        let cap = s.len() as int;
        &&& forall|i: int| 0 <= i < cap ==> #[trigger] slot_entry_ok(s, self.hasher_builder, i)
        &&& forall|i: int, j: int| 0 <= i < cap && 0 <= j < cap ==> #[trigger] path_ok(s, i, j)
        &&& forall|i: int, j: int| 0 <= i < cap && 0 <= j < cap ==> #[trigger] keys_distinct(s, i, j)
        &&& self.num_items == count_occ(s)
    }

    /// The key/value association the table holds, keyed by key bytes.
    pub closed spec fn view(&self) -> Map<Seq<u8>, V> {
        map_of(self.inner@)
    }

    /// Creates a table with a caller-supplied hash provider and capacity 0.
    pub fn with_hasher(hasher_builder: H) -> (r: Self)
        ensures
            r.wf(),
            r.view() == Map::<Seq<u8>, V>::empty(),
            r.spec_len() == 0,
            r.spec_cap() == 0,
            r.spec_hasher() == hasher_builder,
    {
        let r = Self { inner: Vec::new(), hasher_builder, num_items: 0 };
        proof {
            assert(r.view() =~= Map::<Seq<u8>, V>::empty());
        }
        r
    }

    /// Creates a table with a caller-supplied hash provider and `initial_capacity`
    /// vacant slots.
    pub fn with_capacity_and_hasher(initial_capacity: usize, hasher_builder: H) -> (r: Self)
        ensures
            r.wf(),
            r.view() == Map::<Seq<u8>, V>::empty(),
            r.spec_len() == 0,
            r.spec_cap() == initial_capacity,
            r.spec_hasher() == hasher_builder,
    {
        let mut inner: Vec<MapEntry<K, V>> = Vec::with_capacity(initial_capacity);
        let mut i: usize = 0;
        while i < initial_capacity
            invariant
                i <= initial_capacity,
                inner@.len() == i,
                forall|j: int| 0 <= j < i ==> !(#[trigger] inner@[j] is Occupied),
            decreases initial_capacity - i,
        {
            inner.push(MapEntry::default());
            i = i + 1;
        }
        let r = Self { inner, hasher_builder, num_items: 0 };
        proof {
            lemma_count_occ_vacant(r.inner@);
            assert(r.view() =~= Map::<Seq<u8>, V>::empty());
        }
        r
    }

    /// Builds a fresh hasher through the provider and digests the key's
    /// byte string.
    fn hash_key(&self, key: &K) -> (r: u64)
        ensures
            r == self.spec_hasher().digest_spec(key.key_bytes()),
    {
        let bytes = key.to_bytes();
        self.hasher_builder.digest(bytes.as_slice())
    }

    /// Looks the key up.  Returns a borrow of its value, or `None` where the
    /// key is absent.
    ///
    /// The walk starts at the key's home slot and wraps modulo the
    /// capacity.  It may stop early at a vacancy, or at an occupant that
    /// sits strictly closer to its own home than the walked distance: the
    /// placement invariant shows the key cannot lie beyond either.
    pub fn get(&self, key: &K) -> (r: Option<&V>)
        requires
            self.wf(),
        ensures
            match r {
                Some(v) => self.view().contains_key(key.key_bytes()) && *v == self.view()[
                    key.key_bytes()
                ],
                None => !self.view().contains_key(key.key_bytes()),
            },
    {
        let ghost kb = key.key_bytes();
        if self.inner.len() == 0 {
            proof {
                assert(!contains_kb(self.inner@, kb));
            }
            return None;
        }
        let hash = self.hash_key(key);
        let cap = self.inner.len();
        let slot = (hash % (cap as u64)) as usize;
        let ghost s = self.inner@;
        let ghost h = slot as int;
        let mut i: usize = slot;
        let mut d: usize = 0;
        while d < cap
            invariant
                self.wf(),
                s == self.inner@,
                cap == self.spec_cap(),
                cap > 0,
                hash == self.spec_hasher().digest_spec(kb),
                kb == key.key_bytes(),
                h == hash as int % cap as int,
                0 <= i < cap,
                0 <= d <= cap,
                d < cap ==> dist(cap as int, h, i as int) == d,
                forall|j: int|
                    0 <= j < cap && #[trigger] dist(cap as int, h, j) < d ==> slot_occ(s, j)
                        && slot_kb(s, j) != kb,
            decreases cap - d,
        {
            let ghost i0 = i as int;
            let ghost d0 = d as int;
            match &self.inner[i] {
                MapEntry::Occupied(e) => {
                    if key.key_eq(&e.key) {
                        proof {
                            assert(slot_occ(s, i0) && slot_kb(s, i0) == kb);
                            assert(contains_kb(s, kb));
                            let m = index_of_kb(s, kb);
                            assert(0 <= m < cap && slot_occ(s, m) && slot_kb(s, m) == kb);
                            assert(keys_distinct(s, i0, m));
                            assert(m == i0);
                            assert(self.view()[kb] == slot_entry(s, i0).value);
                        }
                        return Some(&e.value);
                    }
                    if e.psl < d {
                        proof {
                            self.lemma_absent_at_stop(s, kb, hash, h, i0, d0);
                        }
                        return None;
                    }
                    proof {
                        assert(slot_occ(s, i0));
                        assert(slot_kb(s, i0) != kb);
                        assert(slot_entry(s, i0).psl >= d0);
                    }
                },
                MapEntry::VacantEntry => {
                    proof {
                        self.lemma_absent_at_stop(s, kb, hash, h, i0, d0);
                    }
                    return None;
                },
            }
            d = d + 1;
            i = i + 1;
            if i == cap {
                i = 0;
            }
            proof {
                assert forall|j: int|
                    0 <= j < cap && #[trigger] dist(cap as int, h, j) < d0 + 1 implies slot_occ(
                    s,
                    j,
                ) && slot_kb(s, j) != kb by {
                    if dist(cap as int, h, j) == d0 {
                        lemma_dist_unique(cap as int, h, j, i0);
                    }
                }
            }
        }
        proof {
            if contains_kb(s, kb) {
                let m = index_of_kb(s, kb);
                assert(0 <= m < cap && slot_occ(s, m) && slot_kb(s, m) == kb);
                lemma_dist_range(cap as int, h, m);
                assert(dist(cap as int, h, m) < cap);
                assert(false);
            }
        }
        None
    }

    /// At a vacancy, or at an occupant closer to its own home than the
    /// walked distance, the searched key can occupy no slot at all: any slot
    /// holding it would put the current slot on its walk, where the
    /// placement invariant contradicts what the walk has seen.
    proof fn lemma_absent_at_stop(
        &self,
        s: Seq<MapEntry<K, V>>,
        kb: Seq<u8>,
        hash: u64,
        h: int,
        i0: int,
        d0: int,
    )
        requires
            self.wf(),
            s == self.inner@,
            s.len() > 0,
            hash == self.spec_hasher().digest_spec(kb),
            h == hash as int % s.len() as int,
            0 <= i0 < s.len(),
            0 <= d0 < s.len(),
            dist(s.len() as int, h, i0) == d0,
            forall|j: int|
                0 <= j < s.len() && #[trigger] dist(s.len() as int, h, j) < d0 ==> slot_occ(s, j)
                    && slot_kb(s, j) != kb,
            slot_occ(s, i0) ==> slot_kb(s, i0) != kb,
            slot_occ(s, i0) ==> slot_entry(s, i0).psl < d0,
        ensures
            !contains_kb(s, kb),
    {
        let cap = s.len() as int;
        if contains_kb(s, kb) {
            let m = index_of_kb(s, kb);
            assert(0 <= m < cap && slot_occ(s, m) && slot_kb(s, m) == kb);
            assert(slot_entry_ok(s, self.spec_hasher(), m));
            assert(slot_home(s, m) == h);
            let dm = dist(cap, h, m);
            lemma_dist_range(cap, h, m);
            if dm < d0 {
                assert(dist(cap, h, m) < d0);
            } else if dm == d0 {
                lemma_dist_unique(cap, h, m, i0);
            } else {
                assert(path_ok(s, m, i0));
            }
            assert(false);
        }
    }

    /// Places an entry whose digest is already computed, by the wrapping
    /// walk from its home slot.  On meeting the same key the value is
    /// replaced in place and the item count stays; on meeting an occupant
    /// closer to its own home than the walked distance, the occupant is
    /// displaced and re-inserted by the same walk from its own home; the
    /// first vacancy ends the walk.
    #[verifier::rlimit(50)]
    #[verifier::loop_isolation(false)]
    fn insert_entry(&mut self, entry: Entry<K, V>)
        requires
            old(self).wf(),
            old(self).spec_cap() > 0,
            old(self).spec_len() < old(self).spec_cap(),
            entry.hash == old(self).spec_hasher().digest_spec(entry.key.key_bytes()),
            entry.psl == 0,
        ensures
            final(self).wf(),
            final(self).view() == old(self).view().insert(entry.key.key_bytes(), entry.value),
            final(self).spec_cap() == old(self).spec_cap(),
            final(self).spec_hasher() == old(self).spec_hasher(),
            final(self).spec_len() == old(self).spec_len() + (if old(self).view().contains_key(
                entry.key.key_bytes(),
            ) {
                0int
            } else {
                1int
            }),
    {
        let cap = self.inner.len();
        let ghost kb0 = entry.key.key_bytes();
        let ghost val0 = entry.value;
        let ghost target = old(self).view().insert(kb0, val0);
        proof {
            if forall|m: int| 0 <= m < cap ==> slot_occ(self.inner@, m) {
                lemma_count_occ_full(self.inner@);
                assert(false);
            }
            assert(exists|m: int| 0 <= m < cap && !slot_occ(self.inner@, m));
        }
        let ghost v = choose|m: int| 0 <= m < cap && !slot_occ(self.inner@, m);
        let mut entry = entry;
        let mut i: usize = (entry.hash % (cap as u64)) as usize;
        loop
            invariant
                self.wf(),
                cap == self.spec_cap(),
                cap > 0,
                self.spec_hasher() == old(self).spec_hasher(),
                self.spec_len() == old(self).spec_len(),
                self.spec_len() < cap,
                entry.hash == self.spec_hasher().digest_spec(entry.key.key_bytes()),
                0 <= i < cap,
                entry.psl < cap,
                dist(cap as int, entry.hash as int % cap as int, i as int) == entry.psl,
                forall|j: int|
                    0 <= j < cap && #[trigger] dist(cap as int, entry.hash as int % cap as int, j)
                        < entry.psl ==> slot_occ(self.inner@, j) && slot_kb(self.inner@, j)
                        != entry.key.key_bytes() && slot_entry(self.inner@, j).psl >= dist(
                        cap as int,
                        entry.hash as int % cap as int,
                        j,
                    ),
                map_of(self.inner@).insert(entry.key.key_bytes(), entry.value) == target,
                contains_kb(self.inner@, entry.key.key_bytes()) == old(self).view().contains_key(
                    kb0,
                ),
                target == old(self).view().insert(kb0, val0),
                0 <= v < cap,
                !slot_occ(self.inner@, v),
            decreases psl_potential_rec(self.inner@, cap as int), dist(cap as int, i as int, v),
        {
            let ghost s = self.inner@;
            let ghost hb = self.spec_hasher();
            let ghost h = entry.hash as int % cap as int;
            let ghost i0 = i as int;
            let ghost p = entry.psl as int;
            let ghost kbe = entry.key.key_bytes();
            proof {
                lemma_potential_nonneg_of_wf(s, hb, cap as int);
            }
            let mut occupied = false;
            let mut same_key = false;
            let mut occ_psl: usize = 0;
            match &self.inner[i] {
                MapEntry::Occupied(o) => {
                    occupied = true;
                    same_key = entry.key.key_eq(&o.key);
                    occ_psl = o.psl;
                },
                MapEntry::VacantEntry => {},
            }
            if !occupied {
                proof {
                    self.lemma_absent_at_stop(s, kbe, entry.hash, h, i0, p);
                }
                let ghost e = entry;
                self.inner.set(i, MapEntry::Occupied(entry));
                self.num_items = self.num_items + 1;
                proof {
                    let t = s.update(i0, MapEntry::Occupied(e));
                    assert(t == self.inner@);
                    assert forall|m: int|
                        0 <= m < cap && #[trigger] slot_occ(s, m) && m != i0 implies slot_kb(s, m)
                        != kbe by {
                        if slot_kb(s, m) == kbe {
                            assert(contains_kb(s, kbe));
                        }
                    }
                    lemma_wf_after_set(s, hb, e, i0);
                    lemma_count_occ_fill(s, i0, MapEntry::Occupied(e));
                    lemma_map_of_update(s, i0, e);
                    assert(self.wf());
                    assert(self.view() == target);
                }
                return;
            } else if same_key {
                proof {
                    assert(slot_entry_ok(s, hb, i0));
                    assert(slot_home(s, i0) == h);
                    assert(slot_entry(s, i0).psl == p);
                }
                let ghost e = entry;
                self.inner.set(i, MapEntry::Occupied(entry));
                proof {
                    let t = s.update(i0, MapEntry::Occupied(e));
                    assert(t == self.inner@);
                    assert forall|m: int|
                        0 <= m < cap && #[trigger] slot_occ(s, m) && m != i0 implies slot_kb(s, m)
                        != kbe by {
                        assert(keys_distinct(s, m, i0));
                    }
                    lemma_wf_after_set(s, hb, e, i0);
                    lemma_count_occ_update(s, i0, MapEntry::Occupied(e));
                    lemma_map_of_update(s, i0, e);
                    assert(self.wf());
                    assert(self.view() == target);
                }
                return;
            } else if entry.psl > occ_psl {
                proof {
                    self.lemma_absent_at_stop(s, kbe, entry.hash, h, i0, p);
                }
                let ghost e = entry;
                let ghost o_entry = slot_entry(s, i0);
                let ghost kbo = slot_kb(s, i0);
                let mut tmp = MapEntry::Occupied(entry);
                self.inner.set_and_swap(i, &mut tmp);
                match tmp {
                    MapEntry::Occupied(rich) => {
                        proof {
                            assert(rich == o_entry);
                        }
                        entry = Entry::new(rich.key, rich.value, rich.hash, 0);
                        i = (entry.hash % (cap as u64)) as usize;
                        proof {
                            let t = s.update(i0, MapEntry::Occupied(e));
                            assert(t == self.inner@);
                            assert forall|m: int|
                                0 <= m < cap && #[trigger] slot_occ(s, m) && m != i0 implies slot_kb(
                                s,
                                m,
                            ) != kbe by {
                                if slot_kb(s, m) == kbe {
                                    assert(contains_kb(s, kbe));
                                }
                            }
                            lemma_wf_after_set(s, hb, e, i0);
                            lemma_count_occ_update(s, i0, MapEntry::Occupied(e));
                            lemma_map_of_update(s, i0, e);
                            lemma_index_of_is(s, i0);
                            assert(map_of(t).insert(kbo, o_entry.value) =~~= map_of(s).insert(
                                kbe,
                                e.value,
                            ));
                            assert(slot_entry_ok(s, hb, i0));
                            assert(entry.key.key_bytes() == kbo);
                            if contains_kb(t, kbo) {
                                let m = index_of_kb(t, kbo);
                                assert(0 <= m < t.len() && slot_occ(t, m) && slot_kb(t, m) == kbo);
                                if m != i0 {
                                    assert(t[m] == s[m]);
                                    assert(keys_distinct(s, m, i0));
                                }
                                assert(false);
                            }
                            lemma_potential_update(s, cap as int, i0, e);
                            lemma_potential_nonneg_of_wf(t, hb, cap as int);
                            lemma_dist_range(cap as int, entry.hash as int % cap as int, i as int);
                        }
                    },
                    MapEntry::VacantEntry => {
                        proof {
                            assert(false);
                        }
                        entry = unreached();
                    },
                }
            } else {
                proof {
                    assert(slot_occ(s, i0) && slot_kb(s, i0) != kbe);
                    assert(slot_entry(s, i0).psl >= p);
                    if p + 1 == cap {
                        assert forall|j: int| 0 <= j < cap implies slot_occ(s, j) by {
                            lemma_dist_range(cap as int, h, j);
                            if dist(cap as int, h, j) < p {
                            } else {
                                lemma_dist_unique(cap as int, h, j, i0);
                            }
                        }
                        assert(slot_occ(s, v));
                        assert(false);
                    }
                    assert(i0 != v);
                    lemma_dist_step(cap as int, i0, v as int);
                    lemma_dist_forward(cap as int, h, i0, p);
                }
                entry.psl = entry.psl + 1;
                i = i + 1;
                if i == cap {
                    i = 0;
                }
                proof {
                    assert forall|j: int|
                        0 <= j < cap && #[trigger] dist(cap as int, h, j) < p + 1 implies slot_occ(
                        s,
                        j,
                    ) && slot_kb(s, j) != kbe && slot_entry(s, j).psl >= dist(cap as int, h, j) by {
                        if dist(cap as int, h, j) == p {
                            lemma_dist_unique(cap as int, h, j, i0);
                        }
                    }
                }
            }
        }
    }

    /// Inserts a value under its key.
    ///
    /// Where the table is empty, or holds more items than three quarters of
    /// its capacity, it grows first: to the initial size from capacity 0,
    /// else to double its capacity.  Inserting under a key already present
    /// replaces the value and leaves the item count unchanged; a new key
    /// raises the count by one.  The capacity never shrinks.
    pub fn insert(&mut self, key: K, value: V)
        requires
            old(self).wf(),
            old(self).spec_len() < usize::MAX as int / 8,
        ensures
            final(self).wf(),
            final(self).view() == old(self).view().insert(key.key_bytes(), value),
            final(self).spec_len() == old(self).spec_len() + (if old(self).view().contains_key(
                key.key_bytes(),
            ) {
                0int
            } else {
                1int
            }),
            final(self).spec_hasher() == old(self).spec_hasher(),
            final(self).spec_cap() == (if old(self).spec_cap() == 0 {
                INITIAL_SIZE as int
            } else if old(self).spec_len() > 3 * old(self).spec_cap() / 4 {
                2 * old(self).spec_cap()
            } else {
                old(self).spec_cap()
            }),
            final(self).spec_cap() >= old(self).spec_cap(),
    {
        let trigger = if self.inner.is_empty() {
            true
        } else {
            let n = self.inner.len();
            match 3usize.checked_mul(n) {
                Some(t) => self.num_items > t / 4,
                None => {
                    proof {
                        assert(self.spec_len() <= self.spec_cap()) by {
                            lemma_count_occ_le_len(self.inner@);
                        }
                        assert(3 * self.spec_cap() / 4 > usize::MAX as int / 4);
                        assert(!(self.spec_len() > 3 * self.spec_cap() / 4));
                    }
                    false
                },
            }
        };
        if trigger {
            self.resize();
        }
        proof {
            lemma_count_occ_le_len(old(self).inner@);
            assert(old(self).spec_len() <= old(self).spec_cap());
            if !trigger {
                assert(old(self).spec_cap() > 0);
                assert(3 * old(self).spec_cap() / 4 < old(self).spec_cap());
            }
            assert(self.spec_len() < self.spec_cap());
        }
        let hash = self.hash_key(&key);
        self.insert_entry(Entry::new(key, value, hash, 0));
    }

    /// Moves every entry into a fresh table of the next capacity: the
    /// initial size from capacity 0, else double the current capacity.
    /// Digests travel with the entries and are not recomputed; recorded
    /// PSLs start over at zero, as the placement walk into the new array
    /// recomputes them.
    #[verifier::rlimit(50)]
    #[verifier::loop_isolation(false)]
    fn resize(&mut self)
        requires
            old(self).wf(),
            old(self).spec_cap() == 0 || old(self).spec_len() > 3 * old(self).spec_cap() / 4,
            old(self).spec_len() < usize::MAX as int / 8,
        ensures
            final(self).wf(),
            final(self).view() == old(self).view(),
            final(self).spec_len() == old(self).spec_len(),
            final(self).spec_hasher() == old(self).spec_hasher(),
            final(self).spec_cap() == (if old(self).spec_cap() == 0 {
                INITIAL_SIZE as int
            } else {
                2 * old(self).spec_cap()
            }),
    {
        let ghost full = self.inner@;
        proof {
            lemma_count_occ_le_len(full);
        }
        let n = self.inner.len();
        proof {
            if n != 0 {
                assert(3 * n as int / 4 < self.spec_len());
                assert(2 * n as int <= usize::MAX as int);
            }
        }
        let target_size: usize = if n == 0 {
            INITIAL_SIZE
        } else {
            2 * n
        };
        let provider = self.hasher_builder.duplicate();
        let mut new_map = Self::with_capacity_and_hasher(target_size, provider);
        proof {
            assert(full.take(full.len() as int) =~= full);
        }
        loop
            invariant
                new_map.wf(),
                new_map.spec_cap() == target_size,
                new_map.spec_hasher() == old(self).spec_hasher(),
                self.inner@.len() <= full.len(),
                self.inner@ == full.take(self.inner@.len() as int),
                new_map.spec_len() == count_occ(full) - count_occ(self.inner@),
                forall|x: Seq<u8>|
                    #[trigger] new_map.view().contains_key(x) == (contains_kb(full, x)
                        && !contains_kb(self.inner@, x)),
                forall|x: Seq<u8>|
                    #[trigger] new_map.view().contains_key(x) ==> new_map.view()[x] == map_of(
                        full,
                    )[x],
            decreases self.inner@.len(),
        {
            let ghost pre = self.inner@;
            let ghost l = pre.len() as int;
            proof {
                if l > 0 {
                    assert(full.take(l).drop_last() =~= full.take(l - 1));
                    assert(pre[l - 1] == full[l - 1]);
                }
            }
            match self.inner.pop() {
                Some(slot) => {
                    proof {
                        lemma_contains_kb_prefix_pop(full, l);
                    }
                    match slot {
                        MapEntry::Occupied(e) => {
                            let ghost prev = new_map.view();
                            let ghost kbe = e.key.key_bytes();
                            proof {
                                assert(slot_entry(full, l - 1) == e);
                                assert(slot_entry_ok(full, old(self).spec_hasher(), l - 1));
                                assert(slot_occ(pre, l - 1) && slot_kb(pre, l - 1) == kbe);
                                assert(contains_kb(pre, kbe));
                                assert(!new_map.view().contains_key(kbe));
                                assert(count_occ(pre) == count_occ(full.take(l - 1)) + 1);
                                lemma_count_occ_le_len(full.take(l - 1));
                                assert(new_map.spec_len() < new_map.spec_cap());
                                lemma_index_of_is(full, l - 1);
                            }
                            new_map.insert_entry(Entry::new(e.key, e.value, e.hash, 0));
                            proof {
                                assert forall|x: Seq<u8>| #[trigger] new_map.view().contains_key(x)
                                    == (contains_kb(full, x) && !contains_kb(self.inner@, x)) by {
                                    assert(new_map.view().contains_key(x) == (x == kbe
                                        || prev.contains_key(x)));
                                    if x == kbe {
                                        assert(contains_kb(full, kbe));
                                    }
                                }
                                assert forall|x: Seq<u8>| #[trigger] new_map.view().contains_key(x)
                                    implies new_map.view()[x] == map_of(full)[x] by {
                                    if x == kbe {
                                        assert(map_of(full)[kbe] == e.value);
                                    } else {
                                        assert(prev.contains_key(x));
                                    }
                                }
                            }
                        },
                        MapEntry::VacantEntry => {
                            proof {
                                assert(count_occ(pre) == count_occ(full.take(l - 1)));
                            }
                        },
                    }
                },
                None => {
                    break ;
                },
            }
        }
        proof {
            assert(self.inner@.len() == 0);
            assert(forall|x: Seq<u8>| !contains_kb(self.inner@, x));
            lemma_count_occ_le_len(self.inner@);
            assert(count_occ(self.inner@) == 0);
            assert forall|x: Seq<u8>| #[trigger] new_map.view().contains_key(x)
                == old(self).view().contains_key(x) by {
                assert(new_map.view().contains_key(x) == contains_kb(full, x));
            }
            assert(new_map.view() =~~= old(self).view());
        }
        *self = new_map;
    }

    /// The number of entries.
    pub fn len(&self) -> (r: usize)
        ensures
            r == self.spec_len(),
    {
        self.num_items
    }

    /// The item counter counts exactly the keys the table holds: `len`
    /// returns the size of the view's domain.
    pub proof fn lemma_len_is_key_count(&self)
        requires
            self.wf(),
        ensures
            self.view().dom().finite(),
            self.spec_len() == self.view().dom().len(),
    {
        lemma_count_is_dom_size(self.inner@);
    }

    /// The capacity of the backing array.
    pub fn capacity(&self) -> (r: usize)
        ensures
            r == self.spec_cap(),
    {
        self.inner.len()
    }
}

impl<K: MapKey, V> FxHashMap<K, V, FxBuildHasher> {
    /// Creates a table with the default Fx provider and capacity 0.
    pub fn new() -> (r: Self)
        ensures
            r.wf(),
            r.view() == Map::<Seq<u8>, V>::empty(),
            r.spec_len() == 0,
            r.spec_cap() == 0,
    {
        Self::with_hasher(FxBuildHasher::new())
    }

    /// Creates a table with the default Fx provider and `initial_capacity`
    /// vacant slots.  Recommended where the eventual size is known, as it
    /// saves intermediate growth steps.
    pub fn with_capacity(initial_capacity: usize) -> (r: Self)
        ensures
            r.wf(),
            r.view() == Map::<Seq<u8>, V>::empty(),
            r.spec_len() == 0,
            r.spec_cap() == initial_capacity,
    {
        Self::with_capacity_and_hasher(initial_capacity, FxBuildHasher::new())
    }
}

/// The slack every occupant has left before a full turn: the sum over the
/// occupied slots of `cap` minus the recorded PSL.  Every displacement
/// strictly raises some occupant's PSL, so this sum strictly falls: it
/// bounds a displacement chain.
pub open spec fn psl_potential_rec<K, V>(s: Seq<MapEntry<K, V>>, cap: int) -> int
    decreases s.len(),
{
    if s.len() == 0 {
        0
    } else {
        psl_potential_rec(s.drop_last(), cap) + if s.last() is Occupied {
            cap - s.last()->Occupied_0.psl
        } else {
            0int
        }
    }
}

/// Replacing the occupant of a slot moves the potential by the drop in its
/// recorded PSL.
pub proof fn lemma_potential_update<K, V>(
    s: Seq<MapEntry<K, V>>,
    cap: int,
    i0: int,
    e: Entry<K, V>,
)
    requires
        0 <= i0 < s.len(),
        s[i0] is Occupied,
    ensures
        psl_potential_rec(s.update(i0, MapEntry::Occupied(e)), cap) == psl_potential_rec(s, cap)
            + slot_entry(s, i0).psl - e.psl,
    decreases s.len(),
{
    let t = s.update(i0, MapEntry::Occupied(e));
    if i0 == s.len() - 1 {
        assert(t.drop_last() =~= s.drop_last());
    } else {
        assert(t.drop_last() =~= s.drop_last().update(i0, MapEntry::Occupied(e)));
        lemma_potential_update(s.drop_last(), cap, i0, e);
    }
}

/// Where every occupant's PSL stays under `cap`, the potential is not
/// negative.
pub proof fn lemma_potential_nonneg<K, V>(s: Seq<MapEntry<K, V>>, cap: int)
    requires
        forall|i: int|
            0 <= i < s.len() && #[trigger] slot_occ(s, i) ==> slot_entry(s, i).psl <= cap,
    ensures
        psl_potential_rec(s, cap) >= 0,
    decreases s.len(),
{
    if s.len() > 0 {
        let t = s.drop_last();
        assert forall|i: int| 0 <= i < t.len() && #[trigger] slot_occ(t, i) implies slot_entry(
            t,
            i,
        ).psl <= cap by {
            assert(t[i] == s[i]);
            assert(slot_occ(s, i));
        }
        lemma_potential_nonneg(t, cap);
        if s.last() is Occupied {
            assert(slot_occ(s, s.len() - 1));
        }
    }
}

/// The slot holding a given key is the only slot holding it.
proof fn lemma_index_of_is<K: MapKey, V>(s: Seq<MapEntry<K, V>>, i0: int)
    requires
        0 <= i0 < s.len(),
        slot_occ(s, i0),
        forall|m: int, j: int|
            0 <= m < s.len() && 0 <= j < s.len() ==> #[trigger] keys_distinct(s, m, j),
    ensures
        contains_kb(s, slot_kb(s, i0)),
        index_of_kb(s, slot_kb(s, i0)) == i0,
        map_of(s)[slot_kb(s, i0)] == slot_entry(s, i0).value,
{
    let kb = slot_kb(s, i0);
    assert(contains_kb(s, kb));
    let m = index_of_kb(s, kb);
    assert(0 <= m < s.len() && slot_occ(s, m) && slot_kb(s, m) == kb);
    assert(keys_distinct(s, m, i0));
}

/// How the association changes when slot `i0` is filled or replaced: the
/// incoming key is now bound to the incoming value; a key the slot held
/// before and no other slot holds drops out; every other binding stays.
proof fn lemma_map_of_update<K: MapKey, V>(s: Seq<MapEntry<K, V>>, i0: int, e: Entry<K, V>)
    requires
        0 <= i0 < s.len(),
        forall|m: int, j: int|
            0 <= m < s.len() && 0 <= j < s.len() ==> #[trigger] keys_distinct(s, m, j),
        forall|m: int|
            0 <= m < s.len() && #[trigger] slot_occ(s, m) && m != i0 ==> slot_kb(s, m)
                != e.key.key_bytes(),
    ensures
        !slot_occ(s, i0) ==> map_of(s.update(i0, MapEntry::Occupied(e))) == map_of(s).insert(
            e.key.key_bytes(),
            e.value,
        ),
        slot_occ(s, i0) && slot_kb(s, i0) == e.key.key_bytes() ==> map_of(
            s.update(i0, MapEntry::Occupied(e)),
        ) == map_of(s).insert(e.key.key_bytes(), e.value),
        slot_occ(s, i0) && slot_kb(s, i0) != e.key.key_bytes() ==> map_of(
            s.update(i0, MapEntry::Occupied(e)),
        ) == map_of(s).remove(slot_kb(s, i0)).insert(e.key.key_bytes(), e.value),
{
    let t = s.update(i0, MapEntry::Occupied(e));
    let kbe = e.key.key_bytes();
    assert(slot_occ(t, i0) && slot_kb(t, i0) == kbe && slot_entry(t, i0).value == e.value);
    assert forall|m: int, j: int|
        0 <= m < t.len() && 0 <= j < t.len() implies #[trigger] keys_distinct(t, m, j) by {
        if m != i0 && j != i0 {
            assert(keys_distinct(s, m, j));
            assert(t[m] == s[m] && t[j] == s[j]);
        } else if m == i0 && j != i0 {
            if slot_occ(t, j) {
                assert(t[j] == s[j]);
                assert(slot_occ(s, j));
            }
        } else if m != i0 && j == i0 {
            if slot_occ(t, m) {
                assert(t[m] == s[m]);
                assert(slot_occ(s, m));
            }
        }
    }
    // Membership, forwards.
    assert forall|x: Seq<u8>| #[trigger] contains_kb(t, x) implies (x == kbe || (contains_kb(s, x)
        && !(slot_occ(s, i0) && x == slot_kb(s, i0)))) by {
        let m = index_of_kb(t, x);
        assert(0 <= m < t.len() && slot_occ(t, m) && slot_kb(t, m) == x);
        if m != i0 {
            assert(t[m] == s[m]);
            assert(slot_occ(s, m) && slot_kb(s, m) == x);
            assert(contains_kb(s, x));
            if slot_occ(s, i0) && x == slot_kb(s, i0) {
                assert(keys_distinct(s, m, i0));
                assert(false);
            }
        }
    }
    // Membership, backwards.
    assert forall|x: Seq<u8>| (x == kbe || (contains_kb(s, x) && !(slot_occ(s, i0) && x
        == slot_kb(s, i0)))) implies #[trigger] contains_kb(t, x) by {
        if x == kbe {
            assert(slot_occ(t, i0) && slot_kb(t, i0) == x);
        } else {
            let m = index_of_kb(s, x);
            assert(0 <= m < s.len() && slot_occ(s, m) && slot_kb(s, m) == x);
            assert(m != i0);
            assert(t[m] == s[m]);
            assert(slot_occ(t, m) && slot_kb(t, m) == x);
        }
    }
    // Values.
    assert forall|x: Seq<u8>| #[trigger] contains_kb(t, x) && x != kbe implies map_of(t)[x]
        == map_of(s)[x] by {
        let m = index_of_kb(t, x);
        assert(0 <= m < t.len() && slot_occ(t, m) && slot_kb(t, m) == x);
        assert(m != i0);
        assert(t[m] == s[m]);
        lemma_index_of_is(t, m);
        lemma_index_of_is(s, m);
    }
    lemma_index_of_is(t, i0);
    if !slot_occ(s, i0) {
        assert(map_of(t) =~~= map_of(s).insert(kbe, e.value));
    } else if slot_kb(s, i0) == kbe {
        assert(map_of(t) =~~= map_of(s).insert(kbe, e.value));
    } else {
        assert(map_of(t) =~~= map_of(s).remove(slot_kb(s, i0)).insert(kbe, e.value));
    }
}

/// With every occupant's recorded PSL equal to its walking distance from
/// home, the potential is not negative.
proof fn lemma_potential_nonneg_of_wf<K: MapKey, V, H: HashProvider>(
    s: Seq<MapEntry<K, V>>,
    hb: H,
    cap: int,
)
    requires
        cap == s.len(),
        forall|m: int| 0 <= m < s.len() ==> #[trigger] slot_entry_ok(s, hb, m),
    ensures
        psl_potential_rec(s, cap) >= 0,
{
    assert forall|m: int| 0 <= m < s.len() && #[trigger] slot_occ(s, m) implies slot_entry(
        s,
        m,
    ).psl <= cap by {
        assert(slot_entry_ok(s, hb, m));
        lemma_dist_range(cap, slot_home(s, m), m);
    }
    lemma_potential_nonneg(s, cap);
}

/// Writing an entry into the slot its walk ends at keeps the table well
/// formed: the walk's own trail discharges the new occupant's placement
/// invariant, and every other occupant's trail is only strengthened, since
/// the touched slot either was vacant and on nobody's trail, or keeps a PSL
/// at least as large as before.
proof fn lemma_wf_after_set<K: MapKey, V, H: HashProvider>(
    s: Seq<MapEntry<K, V>>,
    hb: H,
    e: Entry<K, V>,
    i0: int,
)
    requires
        0 <= i0 < s.len(),
        forall|m: int| 0 <= m < s.len() ==> #[trigger] slot_entry_ok(s, hb, m),
        forall|m: int, j: int|
            0 <= m < s.len() && 0 <= j < s.len() ==> #[trigger] path_ok(s, m, j),
        forall|m: int, j: int|
            0 <= m < s.len() && 0 <= j < s.len() ==> #[trigger] keys_distinct(s, m, j),
        e.hash == hb.digest_spec(e.key.key_bytes()),
        e.psl == dist(s.len() as int, e.hash as int % s.len() as int, i0),
        e.psl < s.len(),
        forall|j: int|
            0 <= j < s.len() && #[trigger] dist(s.len() as int, e.hash as int % s.len() as int, j)
                < e.psl ==> slot_occ(s, j) && slot_kb(s, j) != e.key.key_bytes() && slot_entry(
                s,
                j,
            ).psl >= dist(s.len() as int, e.hash as int % s.len() as int, j),
        forall|m: int|
            0 <= m < s.len() && #[trigger] slot_occ(s, m) && m != i0 ==> slot_kb(s, m)
                != e.key.key_bytes(),
        slot_occ(s, i0) ==> e.psl >= slot_entry(s, i0).psl,
    ensures
        forall|m: int|
            0 <= m < s.len() ==> #[trigger] slot_entry_ok(
                s.update(i0, MapEntry::Occupied(e)),
                hb,
                m,
            ),
        forall|m: int, j: int|
            0 <= m < s.len() && 0 <= j < s.len() ==> #[trigger] path_ok(
                s.update(i0, MapEntry::Occupied(e)),
                m,
                j,
            ),
        forall|m: int, j: int|
            0 <= m < s.len() && 0 <= j < s.len() ==> #[trigger] keys_distinct(
                s.update(i0, MapEntry::Occupied(e)),
                m,
                j,
            ),
{
    let t = s.update(i0, MapEntry::Occupied(e));
    let cap = s.len() as int;
    let h = e.hash as int % cap;
    let kbe = e.key.key_bytes();
    assert(t.len() == s.len());
    assert(slot_entry(t, i0) == e);
    assert forall|m: int| 0 <= m < cap implies #[trigger] slot_entry_ok(t, hb, m) by {
        if m == i0 {
            assert(slot_home(t, i0) == h);
        } else {
            assert(slot_entry_ok(s, hb, m));
            assert(t[m] == s[m]);
        }
    }
    assert forall|m: int, j: int| 0 <= m < cap && 0 <= j < cap implies #[trigger] path_ok(
        t,
        m,
        j,
    ) by {
        if slot_occ(t, m) {
            if m == i0 {
                if dist(cap, h, j) < dist(cap, h, i0) {
                    assert(dist(cap, h, j) < e.psl);
                    assert(slot_occ(s, j) && slot_entry(s, j).psl >= dist(cap, h, j));
                    assert(j != i0);
                    assert(t[j] == s[j]);
                }
            } else {
                assert(t[m] == s[m]);
                assert(slot_occ(s, m));
                assert(slot_home(t, m) == slot_home(s, m));
                let hm = slot_home(s, m);
                if dist(cap, hm, j) < dist(cap, hm, m) {
                    assert(path_ok(s, m, j));
                    assert(slot_occ(s, j) && slot_entry(s, j).psl >= dist(cap, hm, j));
                    if j == i0 {
                        assert(e.psl >= slot_entry(s, i0).psl);
                    } else {
                        assert(t[j] == s[j]);
                    }
                }
            }
        }
    }
    assert forall|m: int, j: int| 0 <= m < cap && 0 <= j < cap implies #[trigger] keys_distinct(
        t,
        m,
        j,
    ) by {
        if slot_occ(t, m) && slot_occ(t, j) && m != j {
            if m != i0 && j != i0 {
                assert(keys_distinct(s, m, j));
                assert(t[m] == s[m] && t[j] == s[j]);
            } else if m == i0 {
                assert(t[j] == s[j]);
                assert(slot_occ(s, j));
            } else {
                assert(t[m] == s[m]);
                assert(slot_occ(s, m));
            }
        }
    }
}

/// What dropping the last slot of a prefix does to key membership: a key
/// the dropped slot held leaves (it sat nowhere else), every other key
/// stays.
proof fn lemma_contains_kb_prefix_pop<K: MapKey, V>(full: Seq<MapEntry<K, V>>, l: int)
    requires
        0 < l <= full.len(),
        forall|m: int, j: int|
            0 <= m < full.len() && 0 <= j < full.len() ==> #[trigger] keys_distinct(full, m, j),
    ensures
        slot_occ(full, l - 1) ==> forall|x: Seq<u8>| #[trigger]
            contains_kb(full.take(l), x) == (x == slot_kb(full, l - 1) || contains_kb(
                full.take(l - 1),
                x,
            )),
        slot_occ(full, l - 1) ==> !contains_kb(full.take(l - 1), slot_kb(full, l - 1)),
        !slot_occ(full, l - 1) ==> forall|x: Seq<u8>| #[trigger]
            contains_kb(full.take(l), x) == contains_kb(full.take(l - 1), x),
{
    let a = full.take(l);
    let b = full.take(l - 1);
    assert(a.len() == l && b.len() == l - 1);
    assert forall|x: Seq<u8>| #[trigger] contains_kb(b, x) implies contains_kb(a, x) by {
        let m = index_of_kb(b, x);
        assert(0 <= m < b.len() && slot_occ(b, m) && slot_kb(b, m) == x);
        assert(b[m] == full[m] && a[m] == full[m]);
        assert(slot_occ(a, m) && slot_kb(a, m) == x);
    }
    assert forall|x: Seq<u8>| #[trigger] contains_kb(a, x) implies ((slot_occ(full, l - 1) && x
        == slot_kb(full, l - 1)) || contains_kb(b, x)) by {
        let m = index_of_kb(a, x);
        assert(0 <= m < l && slot_occ(a, m) && slot_kb(a, m) == x);
        if m < l - 1 {
            assert(a[m] == full[m] && b[m] == full[m]);
            assert(slot_occ(b, m) && slot_kb(b, m) == x);
        } else {
            assert(a[m] == full[l - 1]);
        }
    }
    if slot_occ(full, l - 1) {
        assert(a[l - 1] == full[l - 1]);
        assert(slot_occ(a, l - 1) && slot_kb(a, l - 1) == slot_kb(full, l - 1));
        assert(contains_kb(a, slot_kb(full, l - 1)));
        if contains_kb(b, slot_kb(full, l - 1)) {
            let m = index_of_kb(b, slot_kb(full, l - 1));
            assert(0 <= m < l - 1 && slot_occ(b, m) && slot_kb(b, m) == slot_kb(full, l - 1));
            assert(b[m] == full[m]);
            assert(slot_occ(full, m) && slot_kb(full, m) == slot_kb(full, l - 1));
            assert(keys_distinct(full, m, l - 1));
            assert(false);
        }
        assert forall|x: Seq<u8>| #[trigger] contains_kb(a, x) == (x == slot_kb(full, l - 1)
            || contains_kb(b, x)) by {
            if x == slot_kb(full, l - 1) {
                assert(contains_kb(a, x));
            }
        }
    } else {
        assert forall|x: Seq<u8>| #[trigger] contains_kb(a, x) == contains_kb(b, x) by {
            if contains_kb(a, x) {
                let m = index_of_kb(a, x);
                assert(0 <= m < l && slot_occ(a, m) && slot_kb(a, m) == x);
                assert(a[l - 1] == full[l - 1]);
                assert(m != l - 1);
            }
        }
    }
}

/// With no key held twice, the occupied slots are in one-to-one
/// correspondence with the keys: the occupant count is the size of the
/// association's domain.
pub proof fn lemma_count_is_dom_size<K: MapKey, V>(s: Seq<MapEntry<K, V>>)
    requires
        forall|m: int, j: int|
            0 <= m < s.len() && 0 <= j < s.len() ==> #[trigger] keys_distinct(s, m, j),
    ensures
        map_of(s).dom().finite(),
        map_of(s).dom().len() == count_occ(s),
    decreases s.len(),
{
    if s.len() == 0 {
        assert(map_of(s).dom() =~= Set::<Seq<u8>>::empty());
    } else {
        let t = s.drop_last();
        let l = s.len() as int;
        assert forall|m: int, j: int| 0 <= m < t.len() && 0 <= j < t.len() implies #[trigger]
            keys_distinct(t, m, j) by {
            assert(keys_distinct(s, m, j));
            assert(t[m] == s[m] && t[j] == s[j]);
        }
        lemma_count_is_dom_size(t);
        assert(s.take(l) =~= s);
        assert(s.take(l - 1) =~= t);
        lemma_contains_kb_prefix_pop(s, l);
        if slot_occ(s, l - 1) {
            let kb = slot_kb(s, l - 1);
            assert(!contains_kb(t, kb));
            assert(!map_of(t).dom().contains(kb));
            assert(map_of(s).dom() =~= map_of(t).dom().insert(kb));
        } else {
            assert(map_of(s).dom() =~= map_of(t).dom());
        }
    }
}

/// One forward step keeps the walking distance from home in step.
pub proof fn lemma_dist_forward(cap: int, h: int, i: int, d: int)
    requires
        0 <= h < cap,
        0 <= i < cap,
        dist(cap, h, i) == d,
        d + 1 < cap,
    ensures
        dist(cap, h, if i + 1 == cap { 0int } else { i + 1 }) == d + 1,
{
}

/// One forward step shortens the remaining walk to any other slot by one.
pub proof fn lemma_dist_step(cap: int, i: int, v: int)
    requires
        0 <= i < cap,
        0 <= v < cap,
        i != v,
    ensures
        dist(cap, if i + 1 == cap { 0int } else { i + 1 }, v) == dist(cap, i, v) - 1,
{
}

/// A wrapping forward walk covers less than a full turn.
pub proof fn lemma_dist_range(cap: int, a: int, b: int)
    requires
        0 <= a < cap,
        0 <= b < cap,
    ensures
        0 <= dist(cap, a, b) < cap,
{
}

/// Two slots at the same walking distance from a slot are the same slot.
pub proof fn lemma_dist_unique(cap: int, a: int, b: int, c: int)
    requires
        0 <= a < cap,
        0 <= b < cap,
        0 <= c < cap,
        dist(cap, a, b) == dist(cap, a, c),
    ensures
        b == c,
{
}

/// A backing array with no occupied slot has an occupant count of zero.
pub proof fn lemma_count_occ_vacant<K, V>(s: Seq<MapEntry<K, V>>)
    requires
        forall|i: int| 0 <= i < s.len() ==> !(#[trigger] s[i] is Occupied),
    ensures
        count_occ(s) == 0,
    decreases s.len(),
{
    if s.len() > 0 {
        assert(forall|i: int|
            0 <= i < s.drop_last().len() ==> s.drop_last()[i] == s[i]);
        lemma_count_occ_vacant(s.drop_last());
    }
}

} // verus!
