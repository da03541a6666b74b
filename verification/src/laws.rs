use vstd::prelude::*;

verus! {

/// The association reached after feeding a sequence of key/value pairs, in
/// order, into a starting association: what a run of `insert` calls leaves
/// in a table, stated over the table's view.
pub open spec fn fold_inserts<V>(m0: Map<Seq<u8>, V>, pairs: Seq<(Seq<u8>, V)>) -> Map<
    Seq<u8>,
    V,
>
    decreases pairs.len(),
{
    if pairs.len() == 0 {
        m0
    } else {
        fold_inserts(m0, pairs.drop_last()).insert(pairs.last().0, pairs.last().1)
    }
}

/// Round-trip law: after a sequence of insertions, each key is present and
/// holds the value of its most recent insertion.  `insert` ensures that a
/// call turns view `m` into `m.insert(key_bytes, value)`, and `get` ensures
/// that it returns exactly the view's value for the key, so this law
/// carries over to any run of table operations.
pub proof fn lemma_round_trip<V>(m0: Map<Seq<u8>, V>, pairs: Seq<(Seq<u8>, V)>, i: int)
    requires
        0 <= i < pairs.len(),
        forall|j: int| i < j < pairs.len() ==> (#[trigger] pairs[j].0) != pairs[i].0,
    ensures
        fold_inserts(m0, pairs).contains_key(pairs[i].0),
        fold_inserts(m0, pairs)[pairs[i].0] == pairs[i].1,
    decreases pairs.len(),
{
    if i == pairs.len() - 1 {
        assert(pairs.last() == pairs[i]);
    } else {
        let shorter = pairs.drop_last();
        assert(shorter[i] == pairs[i]);
        assert forall|j: int| i < j < shorter.len() implies (#[trigger] shorter[j].0)
            != shorter[i].0 by {
            assert(shorter[j] == pairs[j]);
        }
        lemma_round_trip(m0, shorter, i);
        assert(pairs.last().0 != pairs[i].0);
    }
}

} // verus!
