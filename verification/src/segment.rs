//! The model of one segment: a sequence of key/value pairs, strictly
//! ascending by key.

use crate::order::{key_lt, lemma_lt_transitive, lemma_trichotomy, total_order};
use vstd::prelude::*;

verus! {

/// The keys of `seg` are strictly ascending.
pub open spec fn ascending<K: Ord, V>(seg: Seq<(K, V)>) -> bool {
    forall|i: int, j: int| 0 <= i < j < seg.len() ==> key_lt(seg[i].0, seg[j].0)
}

/// Some pair of `seg` has the key `key`.
pub open spec fn holds<K, V>(seg: Seq<(K, V)>, key: K) -> bool {
    exists|i: int| 0 <= i < seg.len() && seg[i].0 == key
}

/// An index at which `seg` has the key `key`, where it holds that key.
pub open spec fn slot_of<K, V>(seg: Seq<(K, V)>, key: K) -> int {
    choose|i: int| 0 <= i < seg.len() && seg[i].0 == key
}

/// How many keys of `seg` sort before `key`. In an ascending segment that
/// does not hold `key`, this is the index at which `key` belongs.
pub open spec fn rank<K: Ord, V>(seg: Seq<(K, V)>, key: K) -> nat
    decreases seg.len(),
{
    if seg.len() == 0 {
        0
    } else if key_lt(seg.last().0, key) {
        rank(seg.drop_last(), key) + 1
    } else {
        rank(seg.drop_last(), key)
    }
}

/// The finite map that `seg` stands for.
pub open spec fn seg_map<K, V>(seg: Seq<(K, V)>) -> Map<K, V> {
    Map::new(|k: K| holds(seg, k), |k: K| seg[slot_of(seg, k)].1)
}

/// In an ascending segment every key has one index.
pub proof fn lemma_slot_unique<K: Ord, V>(seg: Seq<(K, V)>, i: int)
    requires
        total_order::<K>(),
        ascending(seg),
        0 <= i < seg.len(),
    ensures
        holds(seg, seg[i].0),
        slot_of(seg, seg[i].0) == i,
        seg_map(seg).contains_key(seg[i].0),
        seg_map(seg)[seg[i].0] == seg[i].1,
{
    let j = slot_of(seg, seg[i].0);
    if j < i {
        lemma_trichotomy(seg[j].0, seg[i].0);
    } else if i < j {
        lemma_trichotomy(seg[i].0, seg[j].0);
    }
}

/// A split point with smaller keys before it and no smaller key after it is
/// the rank.
pub proof fn lemma_rank_is<K: Ord, V>(seg: Seq<(K, V)>, key: K, at: int)
    requires
        0 <= at <= seg.len(),
        forall|j: int| 0 <= j < at ==> key_lt(seg[j].0, key),
        forall|j: int| at <= j < seg.len() ==> !key_lt(seg[j].0, key),
    ensures
        rank(seg, key) == at,
    decreases seg.len(),
{
    if seg.len() > 0 {
        let init = seg.drop_last();
        if at == seg.len() {
            lemma_rank_is(init, key, at - 1);
        } else {
            lemma_rank_is(init, key, at);
        }
    }
}

/// In an ascending segment without `key`, the rank splits the keys into
/// those before `key` and those after it.
pub proof fn lemma_rank_splits<K: Ord, V>(seg: Seq<(K, V)>, key: K)
    requires
        total_order::<K>(),
        ascending(seg),
        !holds(seg, key),
    ensures
        rank(seg, key) <= seg.len(),
        forall|j: int| 0 <= j < rank(seg, key) ==> key_lt(seg[j].0, key),
        forall|j: int| rank(seg, key) <= j < seg.len() ==> key_lt(key, seg[j].0),
    decreases seg.len(),
{
    if seg.len() > 0 {
        let init = seg.drop_last();
        let n = seg.len() - 1;
        let last = seg[n].0;
        lemma_rank_splits(init, key);
        lemma_trichotomy(last, key);
        let r = rank(init, key) as int;
        if key_lt(last, key) {
            if r < n {
                assert(init[r] == seg[r]);
                lemma_lt_transitive(seg[r].0, last, key);
                lemma_trichotomy(seg[r].0, key);
            }
            assert forall|j: int| 0 <= j < rank(seg, key) implies key_lt(seg[j].0, key) by {
                if j < n {
                    assert(init[j] == seg[j]);
                }
            }
        } else {
            assert forall|j: int| 0 <= j < rank(seg, key) implies key_lt(seg[j].0, key) by {
                assert(init[j] == seg[j]);
            }
            assert forall|j: int| rank(seg, key) <= j < seg.len() implies key_lt(
                key,
                seg[j].0,
            ) by {
                if j < n {
                    assert(init[j] == seg[j]);
                }
            }
        }
    }
}

/// Putting a new pair in at its rank keeps the segment ascending and adds
/// that one binding.
pub proof fn lemma_insert_at_rank<K: Ord, V>(seg: Seq<(K, V)>, key: K, value: V)
    requires
        total_order::<K>(),
        ascending(seg),
        !holds(seg, key),
    ensures
        ascending(seg.insert(rank(seg, key) as int, (key, value))),
        forall|k: K|
            holds(seg.insert(rank(seg, key) as int, (key, value)), k) <==> (k == key || holds(
                seg,
                k,
            )),
        seg_map(seg.insert(rank(seg, key) as int, (key, value))) == seg_map(seg).insert(
            key,
            value,
        ),
{
    lemma_rank_splits(seg, key);
    let at = rank(seg, key) as int;
    let out = seg.insert(at, (key, value));
    assert forall|k: K| holds(out, k) <==> (k == key || holds(seg, k)) by {
        if holds(out, k) {
            let i = slot_of(out, k);
            if i < at {
                assert(seg[i].0 == k);
            } else if i > at {
                assert(seg[i - 1].0 == k);
            }
        }
        if k == key {
            assert(out[at].0 == k);
        }
        if holds(seg, k) {
            let i = slot_of(seg, k);
            if i < at {
                assert(out[i].0 == k);
            } else {
                assert(out[i + 1].0 == k);
            }
        }
    }
    assert forall|k: K| #[trigger] seg_map(out).contains_key(k) implies seg_map(out)[k]
        == seg_map(seg).insert(key, value)[k] by {
        let i = slot_of(out, k);
        lemma_slot_unique(out, i);
        if i < at {
            lemma_slot_unique(seg, i);
        } else if i > at {
            lemma_slot_unique(seg, i - 1);
        }
    }
}

/// Dropping the last pair keeps the segment ascending and removes that one
/// binding.
pub proof fn lemma_drop_last<K: Ord, V>(seg: Seq<(K, V)>)
    requires
        total_order::<K>(),
        ascending(seg),
        seg.len() > 0,
    ensures
        ascending(seg.drop_last()),
        forall|k: K| holds(seg.drop_last(), k) <==> (holds(seg, k) && k != seg.last().0),
        seg_map(seg.drop_last()) == seg_map(seg).remove(seg.last().0),
{
    let init = seg.drop_last();
    let n = seg.len() - 1;
    assert forall|k: K| holds(init, k) <==> (holds(seg, k) && k != seg.last().0) by {
        if holds(init, k) {
            let i = slot_of(init, k);
            assert(seg[i].0 == k);
            lemma_trichotomy(seg[i].0, seg[n].0);
        }
        if holds(seg, k) && k != seg.last().0 {
            let i = slot_of(seg, k);
            assert(init[i].0 == k);
        }
    }
    assert forall|k: K| #[trigger] seg_map(init).contains_key(k) implies seg_map(init)[k]
        == seg_map(seg)[k] by {
        let i = slot_of(init, k);
        lemma_slot_unique(init, i);
        lemma_slot_unique(seg, i);
    }
}

/// Writing a new value beside a key that is there changes that one binding.
pub proof fn lemma_update_value<K: Ord, V>(seg: Seq<(K, V)>, at: int, value: V)
    requires
        total_order::<K>(),
        ascending(seg),
        0 <= at < seg.len(),
    ensures
        ascending(seg.update(at, (seg[at].0, value))),
        forall|k: K| holds(seg.update(at, (seg[at].0, value)), k) <==> holds(seg, k),
        seg_map(seg.update(at, (seg[at].0, value))) == seg_map(seg).insert(seg[at].0, value),
{
    let out = seg.update(at, (seg[at].0, value));
    assert forall|k: K| holds(out, k) <==> holds(seg, k) by {
        if holds(out, k) {
            let i = slot_of(out, k);
            assert(seg[i].0 == k);
        }
        if holds(seg, k) {
            let i = slot_of(seg, k);
            assert(out[i].0 == k);
        }
    }
    assert forall|k: K| #[trigger] seg_map(out).contains_key(k) implies seg_map(out)[k]
        == seg_map(seg).insert(seg[at].0, value)[k] by {
        let i = slot_of(out, k);
        assert(out[i].0 == seg[i].0);
        lemma_slot_unique(out, at);
        lemma_slot_unique(seg, i);
    }
}

/// An ascending segment binds as many keys as it has pairs.
pub proof fn lemma_seg_count<K: Ord, V>(seg: Seq<(K, V)>)
    requires
        total_order::<K>(),
        ascending(seg),
    ensures
        seg_map(seg).dom().finite(),
        seg_map(seg).len() == seg.len(),
    decreases seg.len(),
{
    if seg.len() == 0 {
        assert(seg_map(seg).dom() =~= Set::<K>::empty());
    } else {
        let init = seg.drop_last();
        lemma_drop_last(seg);
        lemma_seg_count(init);
    }
}

} // verus!
