//! The model of the whole map: a chain of segments, head first.
//!
//! Every segment is ascending and holds at most `cap` pairs, and no key is
//! held by two segments. The key ranges of different segments may overlap:
//! only each segment by itself is ordered.

use crate::order::{key_lt, total_order};
use crate::segment::{
    ascending, holds, lemma_drop_last, lemma_insert_at_rank, lemma_rank_splits, lemma_seg_count,
    lemma_slot_unique, lemma_update_value, rank, seg_map, slot_of,
};
use vstd::prelude::*;

verus! {

/// The chain that starts with `head` and goes on with `rest`.
pub open spec fn cons<K, V>(head: Seq<(K, V)>, rest: Seq<Seq<(K, V)>>) -> Seq<Seq<(K, V)>> {
    seq![head] + rest
}

/// The chain of a map that nothing has been put into: one empty segment.
pub open spec fn fresh<K, V>() -> Seq<Seq<(K, V)>> {
    seq![Seq::empty()]
}

/// Some segment of `chain` holds `key`.
pub open spec fn chain_holds<K, V>(chain: Seq<Seq<(K, V)>>, key: K) -> bool {
    exists|s: int| 0 <= s < chain.len() && holds(chain[s], key)
}

/// The invariant of a chain whose segments have room for `cap` pairs each.
pub open spec fn well_formed<K: Ord, V>(chain: Seq<Seq<(K, V)>>, cap: nat) -> bool {
    &&& forall|s: int|
        0 <= s < chain.len() ==> (#[trigger] chain[s]).len() <= cap && ascending(chain[s])
    &&& forall|s: int, t: int, key: K|
        0 <= s < t < chain.len() && holds(chain[s], key) ==> !holds(chain[t], key)
}

/// The finite map that `chain` stands for.
pub open spec fn chain_map<K, V>(chain: Seq<Seq<(K, V)>>) -> Map<K, V>
    decreases chain.len(),
{
    if chain.len() == 0 {
        Map::empty()
    } else {
        chain_map(chain.drop_first()).union_prefer_right(seg_map(chain.first()))
    }
}

/// The chain after a pair with a key that no segment holds has been put in.
///
/// The pair settles in the first segment in which its rank lies within the
/// capacity. If that segment is full, its last pair makes room and is in turn
/// put into the rest of the chain. Where no segment takes the pair, a new
/// segment with that one pair ends the chain.
pub open spec fn place<K: Ord, V>(chain: Seq<Seq<(K, V)>>, cap: nat, key: K, value: V) -> Seq<
    Seq<(K, V)>,
>
    decreases chain.len(),
{
    if chain.len() == 0 {
        seq![seq![(key, value)]]
    } else {
        let head = chain.first();
        let rest = chain.drop_first();
        let at = rank(head, key);
        if at >= cap {
            cons(head, place(rest, cap, key, value))
        } else if head.len() < cap {
            cons(head.insert(at as int, (key, value)), rest)
        } else {
            cons(
                head.insert(at as int, (key, value)).drop_last(),
                place(rest, cap, head.last().0, head.last().1),
            )
        }
    }
}

/// The chain after the value beside `key` has been overwritten with `value`,
/// in the segment that holds `key`.
pub open spec fn replace<K, V>(chain: Seq<Seq<(K, V)>>, key: K, value: V) -> Seq<Seq<(K, V)>>
    decreases chain.len(),
{
    if chain.len() == 0 {
        chain
    } else if holds(chain.first(), key) {
        cons(
            chain.first().update(slot_of(chain.first(), key), (key, value)),
            chain.drop_first(),
        )
    } else {
        cons(chain.first(), replace(chain.drop_first(), key, value))
    }
}

/// The chain after `key` has been bound to `value`.
pub open spec fn inserted<K: Ord, V>(
    chain: Seq<Seq<(K, V)>>,
    cap: nat,
    key: K,
    value: V,
) -> Seq<Seq<(K, V)>> {
    if chain_holds(chain, key) {
        replace(chain, key, value)
    } else {
        place(chain, cap, key, value)
    }
}

/// How `cons` takes apart again.
pub proof fn lemma_cons<K, V>(head: Seq<(K, V)>, rest: Seq<Seq<(K, V)>>)
    ensures
        cons(head, rest).len() == rest.len() + 1,
        cons(head, rest).first() == head,
        cons(head, rest).drop_first() == rest,
        cons(head, rest).flatten() == head + rest.flatten(),
{
}

/// The fresh chain is well formed and stands for the empty map.
pub proof fn lemma_fresh<K: Ord, V>(cap: nat)
    ensures
        well_formed(fresh::<K, V>(), cap),
        chain_map(fresh::<K, V>()) == Map::<K, V>::empty(),
        fresh::<K, V>().flatten() == Seq::<(K, V)>::empty(),
{
    let chain = fresh::<K, V>();
    assert(chain_map(chain.drop_first()) == Map::<K, V>::empty());
    assert(chain.drop_first().flatten() =~= Seq::<(K, V)>::empty());
}

/// A key is held by a chain if its first segment or the rest holds it.
pub proof fn lemma_holds_split<K, V>(chain: Seq<Seq<(K, V)>>, key: K)
    requires
        chain.len() > 0,
    ensures
        chain_holds(chain, key) <==> holds(chain.first(), key) || chain_holds(
            chain.drop_first(),
            key,
        ),
{
    let rest = chain.drop_first();
    if chain_holds(chain, key) {
        let s = choose|s: int| 0 <= s < chain.len() && holds(chain[s], key);
        if s > 0 {
            assert(rest[s - 1] == chain[s]);
        }
    }
}

/// The keys of the map are the keys that the chain holds.
pub proof fn lemma_chain_map_dom<K, V>(chain: Seq<Seq<(K, V)>>)
    ensures
        forall|k: K|
            #![trigger chain_map(chain).contains_key(k)]
            #![trigger chain_holds(chain, k)]
            chain_map(chain).contains_key(k) <==> chain_holds(chain, k),
    decreases chain.len(),
{
    if chain.len() > 0 {
        let rest = chain.drop_first();
        lemma_chain_map_dom(rest);
        assert forall|k: K| chain_map(chain).contains_key(k) <==> chain_holds(chain, k) by {
            lemma_holds_split(chain, k);
            assert(chain_map(rest).contains_key(k) <==> chain_holds(rest, k));
        }
    }
}

/// A chain is well formed if its first segment is in order, the rest is well
/// formed, and the two share no key.
pub proof fn lemma_wf_split<K: Ord, V>(chain: Seq<Seq<(K, V)>>, cap: nat)
    requires
        chain.len() > 0,
    ensures
        well_formed(chain, cap) <==> {
            &&& chain.first().len() <= cap
            &&& ascending(chain.first())
            &&& well_formed(chain.drop_first(), cap)
            &&& forall|k: K| holds(chain.first(), k) ==> !chain_holds(chain.drop_first(), k)
        },
{
    let head = chain.first();
    let rest = chain.drop_first();
    if head.len() <= cap && ascending(head) && well_formed(rest, cap) && (forall|k: K|
        holds(head, k) ==> !chain_holds(rest, k)) {
        assert forall|s: int| 0 <= s < chain.len() implies (#[trigger] chain[s]).len() <= cap
            && ascending(chain[s]) by {
            if s > 0 {
                assert(chain[s] == rest[s - 1]);
            }
        }
        assert forall|s: int, t: int, key: K|
            0 <= s < t < chain.len() && holds(chain[s], key) implies !holds(chain[t], key) by {
            assert(chain[t] == rest[t - 1]);
            if s > 0 {
                assert(chain[s] == rest[s - 1]);
            }
        }
    }
}

/// Putting a new key in keeps the chain well formed and adds that one
/// binding to its map.
pub proof fn lemma_place<K: Ord, V>(chain: Seq<Seq<(K, V)>>, cap: nat, key: K, value: V)
    requires
        total_order::<K>(),
        cap > 0,
        well_formed(chain, cap),
        !chain_holds(chain, key),
    ensures
        well_formed(place(chain, cap, key, value), cap),
        chain_map(place(chain, cap, key, value)) == chain_map(chain).insert(key, value),
    decreases chain.len(),
{
    let out = place(chain, cap, key, value);
    if chain.len() == 0 {
        let only = seq![(key, value)];
        assert(chain_map(out.drop_first()) == Map::<K, V>::empty());
        assert(only[0].0 == key);
    } else {
        let head = chain.first();
        let rest = chain.drop_first();
        let at = rank(head, key);
        lemma_rank_splits(head, key);
        if at >= cap {
            let rest_out = place(rest, cap, key, value);
            lemma_place(rest, cap, key, value);
            lemma_cons(head, rest_out);
            lemma_chain_map_dom(rest);
            lemma_chain_map_dom(rest_out);
            lemma_wf_split(out, cap);
        } else if head.len() < cap {
            lemma_insert_at_rank(head, key, value);
            lemma_cons(head.insert(at as int, (key, value)), rest);
        } else {
            let last = head.last();
            let wide = head.insert(at as int, (key, value));
            let rest_out = place(rest, cap, last.0, last.1);
            lemma_slot_unique(head, head.len() - 1);
            lemma_insert_at_rank(head, key, value);
            lemma_drop_last(wide);
            lemma_place(rest, cap, last.0, last.1);
            lemma_cons(wide.drop_last(), rest_out);
            lemma_chain_map_dom(rest);
            lemma_chain_map_dom(rest_out);
            lemma_wf_split(out, cap);
        }
    }
}

/// Overwriting the value beside a key that is there keeps the chain well
/// formed and its shape, and changes that one binding of its map.
pub proof fn lemma_replace<K: Ord, V>(chain: Seq<Seq<(K, V)>>, cap: nat, key: K, value: V)
    requires
        total_order::<K>(),
        well_formed(chain, cap),
        chain_holds(chain, key),
    ensures
        well_formed(replace(chain, key, value), cap),
        chain_map(replace(chain, key, value)) == chain_map(chain).insert(key, value),
        replace(chain, key, value).len() == chain.len(),
        forall|s: int|
            0 <= s < chain.len() ==> (#[trigger] replace(chain, key, value)[s]).len()
                == chain[s].len(),
    decreases chain.len(),
{
    let out = replace(chain, key, value);
    if chain.len() > 0 {
        let head = chain.first();
        let rest = chain.drop_first();
        lemma_holds_split(chain, key);
        if holds(head, key) {
            let at = slot_of(head, key);
            lemma_update_value(head, at, value);
            lemma_cons(head.update(at, (key, value)), rest);
        } else {
            let rest_out = replace(rest, key, value);
            lemma_replace(rest, cap, key, value);
            lemma_cons(head, rest_out);
            lemma_chain_map_dom(rest);
            lemma_chain_map_dom(rest_out);
            lemma_wf_split(out, cap);
        }
    }
}

/// Binding a key keeps the chain well formed and binds that key in its map.
pub proof fn lemma_inserted<K: Ord, V>(chain: Seq<Seq<(K, V)>>, cap: nat, key: K, value: V)
    requires
        total_order::<K>(),
        cap > 0,
        well_formed(chain, cap),
    ensures
        well_formed(inserted(chain, cap, key, value), cap),
        chain_map(inserted(chain, cap, key, value)) == chain_map(chain).insert(key, value),
{
    if chain_holds(chain, key) {
        lemma_replace(chain, cap, key, value);
    } else {
        lemma_place(chain, cap, key, value);
    }
}

/// A well-formed chain walked segment by segment yields every binding of
/// its map once: as many pairs as the map has keys, no key twice, each key
/// with its value.
pub proof fn lemma_entries<K: Ord, V>(chain: Seq<Seq<(K, V)>>, cap: nat)
    requires
        total_order::<K>(),
        well_formed(chain, cap),
    ensures
        chain_map(chain).dom().finite(),
        chain_map(chain).len() == chain.flatten().len(),
        forall|i: int|
            0 <= i < chain.flatten().len() ==> chain_map(chain).get(
                (#[trigger] chain.flatten()[i]).0,
            ) == Some(chain.flatten()[i].1),
        forall|i: int, j: int|
            0 <= i < j < chain.flatten().len() ==> chain.flatten()[i].0 != chain.flatten()[j].0,
    decreases chain.len(),
{
    let flat = chain.flatten();
    if chain.len() > 0 {
        let head = chain.first();
        let rest = chain.drop_first();
        let back = rest.flatten();
        lemma_entries(rest, cap);
        lemma_seg_count(head);
        lemma_chain_map_dom(rest);
        let near = seg_map(head).dom();
        let far = chain_map(rest).dom();
        assert(chain_map(chain).dom() =~= far + near);
        vstd::set_lib::lemma_set_disjoint_lens(far, near);
        assert forall|i: int| 0 <= i < flat.len() implies chain_map(chain).get(
            (#[trigger] flat[i]).0,
        ) == Some(flat[i].1) by {
            if i < head.len() {
                lemma_slot_unique(head, i);
            } else {
                assert(flat[i] == back[i - head.len()]);
            }
        }
        assert forall|i: int, j: int| 0 <= i < j < flat.len() implies flat[i].0 != flat[j].0 by {
            if j < head.len() {
                lemma_slot_unique(head, i);
                lemma_slot_unique(head, j);
            } else if i < head.len() {
                lemma_slot_unique(head, i);
                assert(flat[j] == back[j - head.len()]);
            } else {
                assert(flat[i] == back[i - head.len()]);
                assert(flat[j] == back[j - head.len()]);
            }
        }
    }
}

/// `to` has the shape of `from`, and each of its keys and values is a clone
/// of the one in the same place in `from`.
pub open spec fn chain_cloned<K: Clone, V: Clone>(
    from: Seq<Seq<(K, V)>>,
    to: Seq<Seq<(K, V)>>,
) -> bool {
    &&& to.len() == from.len()
    &&& forall|s: int| 0 <= s < from.len() ==> (#[trigger] to[s]).len() == from[s].len()
    &&& forall|s: int, i: int|
        0 <= s < from.len() && 0 <= i < from[s].len() ==> cloned::<K>(
            (#[trigger] from[s][i]).0,
            to[s][i].0,
        ) && cloned::<V>(from[s][i].1, to[s][i].1)
}

/// Cloning a `T` gives that value again.
pub open spec fn clone_is_copy<T: Clone>() -> bool {
    forall|a: T, b: T| cloned::<T>(a, b) ==> a == b
}

/// Where cloning a key gives that key again, a cloned chain has the keys of
/// the chain in the same places, and is well formed if the chain is.
pub proof fn lemma_cloned_keys<K: Ord + Clone, V: Clone>(
    from: Seq<Seq<(K, V)>>,
    to: Seq<Seq<(K, V)>>,
    cap: nat,
)
    requires
        chain_cloned(from, to),
        clone_is_copy::<K>(),
        well_formed(from, cap),
    ensures
        forall|s: int, i: int|
            0 <= s < from.len() && 0 <= i < from[s].len() ==> (#[trigger] to[s][i]).0
                == from[s][i].0,
        well_formed(to, cap),
{
    assert forall|s: int, key: K| 0 <= s < from.len() implies (holds(to[s], key) <==> holds(
        from[s],
        key,
    )) by {
        assert(to[s].len() == from[s].len());
        if holds(to[s], key) {
            let i = slot_of(to[s], key);
            assert(to[s][i].0 == from[s][i].0);
        }
        if holds(from[s], key) {
            let i = slot_of(from[s], key);
            assert(to[s][i].0 == from[s][i].0);
        }
    }
    assert forall|s: int| 0 <= s < to.len() implies (#[trigger] to[s]).len() <= cap && ascending(
        to[s],
    ) by {
        assert(to[s].len() == from[s].len());
        assert(ascending(from[s]));
        assert forall|i: int, j: int| 0 <= i < j < to[s].len() implies key_lt(
            to[s][i].0,
            to[s][j].0,
        ) by {
            assert(to[s][i].0 == from[s][i].0 && to[s][j].0 == from[s][j].0);
        }
    }
}

/// Where cloning a key or a value gives that key or value again, a cloned
/// chain is the chain itself.
pub proof fn lemma_faithful_clone<K: Clone, V: Clone>(
    from: Seq<Seq<(K, V)>>,
    to: Seq<Seq<(K, V)>>,
)
    requires
        chain_cloned(from, to),
        clone_is_copy::<K>(),
        clone_is_copy::<V>(),
    ensures
        to == from,
{
    assert forall|s: int| 0 <= s < from.len() implies to[s] == from[s] by {
        assert(to[s].len() == from[s].len());
        assert forall|i: int| 0 <= i < from[s].len() implies to[s][i] == from[s][i] by {
            assert(cloned::<K>(from[s][i].0, to[s][i].0));
        }
        assert(to[s] =~= from[s]);
    }
}

} // verus!
