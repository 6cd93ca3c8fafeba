//! What holds of a map after any run of insertions.

use crate::chain::{
    chain_map, fresh, inserted, lemma_entries, lemma_fresh, lemma_inserted, well_formed,
};
use crate::order::total_order;
use vstd::prelude::*;

verus! {

/// The chain after the pairs of `ops` have been bound one after the other,
/// the first pair first.
pub open spec fn inserted_all<K: Ord, V>(
    chain: Seq<Seq<(K, V)>>,
    cap: nat,
    ops: Seq<(K, V)>,
) -> Seq<Seq<(K, V)>>
    decreases ops.len(),
{
    if ops.len() == 0 {
        chain
    } else {
        inserted(inserted_all(chain, cap, ops.drop_last()), cap, ops.last().0, ops.last().1)
    }
}

/// The value of the last pair of `ops` that has the key `key`.
pub open spec fn latest<K, V>(ops: Seq<(K, V)>, key: K) -> Option<V>
    decreases ops.len(),
{
    if ops.len() == 0 {
        None
    } else if ops.last().0 == key {
        Some(ops.last().1)
    } else {
        latest(ops.drop_last(), key)
    }
}

/// Insertions keep a chain well formed.
pub proof fn lemma_inserts_keep_well_formed<K: Ord, V>(
    chain: Seq<Seq<(K, V)>>,
    cap: nat,
    ops: Seq<(K, V)>,
)
    requires
        total_order::<K>(),
        cap > 0,
        well_formed(chain, cap),
    ensures
        well_formed(inserted_all(chain, cap, ops), cap),
    decreases ops.len(),
{
    if ops.len() > 0 {
        lemma_inserts_keep_well_formed(chain, cap, ops.drop_last());
        lemma_inserted(
            inserted_all(chain, cap, ops.drop_last()),
            cap,
            ops.last().0,
            ops.last().1,
        );
    }
}

/// After any run of insertions a key is bound to the value that was last
/// inserted with it; a key that the run does not mention is bound as before.
pub proof fn lemma_get_latest<K: Ord, V>(
    chain: Seq<Seq<(K, V)>>,
    cap: nat,
    ops: Seq<(K, V)>,
    key: K,
)
    requires
        total_order::<K>(),
        cap > 0,
        well_formed(chain, cap),
    ensures
        chain_map(inserted_all(chain, cap, ops)).get(key) == match latest(ops, key) {
            Some(value) => Some(value),
            None => chain_map(chain).get(key),
        },
    decreases ops.len(),
{
    if ops.len() > 0 {
        lemma_inserts_keep_well_formed(chain, cap, ops.drop_last());
        lemma_get_latest(chain, cap, ops.drop_last(), key);
        lemma_inserted(
            inserted_all(chain, cap, ops.drop_last()),
            cap,
            ops.last().0,
            ops.last().1,
        );
    }
}

/// In a map that started empty, a key is bound exactly to the value that was
/// last inserted with it.
pub proof fn lemma_get_latest_from_fresh<K: Ord, V>(cap: nat, ops: Seq<(K, V)>, key: K)
    requires
        total_order::<K>(),
        cap > 0,
    ensures
        chain_map(inserted_all(fresh(), cap, ops)).get(key) == latest(ops, key),
{
    lemma_fresh::<K, V>(cap);
    lemma_get_latest(fresh::<K, V>(), cap, ops, key);
}

/// After any run of insertions into an empty map, a walk over the chain
/// yields as many pairs as the map has keys, yields no key twice, and yields
/// each key with the value that it is bound to.
pub proof fn lemma_walk_after_inserts<K: Ord, V>(cap: nat, ops: Seq<(K, V)>)
    requires
        total_order::<K>(),
        cap > 0,
    ensures
        ({
            let chain = inserted_all(fresh::<K, V>(), cap, ops);
            let walk = chain.flatten();
            &&& chain_map(chain).dom().finite()
            &&& walk.len() == chain_map(chain).len()
            &&& forall|i: int, j: int| 0 <= i < j < walk.len() ==> walk[i].0 != walk[j].0
            &&& forall|i: int|
                0 <= i < walk.len() ==> chain_map(chain).get((#[trigger] walk[i]).0) == Some(
                    walk[i].1,
                )
        }),
{
    lemma_inserts_keep_well_formed(fresh::<K, V>(), cap, ops);
    lemma_entries(inserted_all(fresh::<K, V>(), cap, ops), cap);
}

} // verus!
