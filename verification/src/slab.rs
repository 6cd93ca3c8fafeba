//! The map itself: a head segment that owns the next one, and so on.

use crate::chain::{
    chain_cloned, chain_map, clone_is_copy, cons, fresh, inserted, lemma_chain_map_dom,
    lemma_cloned_keys, lemma_cons, lemma_entries, lemma_faithful_clone, lemma_fresh,
    lemma_inserted, place, replace, well_formed,
};
use crate::order::{compare, key_lt, lemma_lt_transitive, lemma_trichotomy, total_order, Side};
use crate::segment::{
    ascending, holds, lemma_rank_is, lemma_rank_splits, lemma_slot_unique, rank,
};
use vstd::prelude::*;

verus! {

/// One stored pair.
#[derive(Debug)]
pub struct Record<K, V> {
    key: K,
    value: V,
}

impl<K, V> View for Record<K, V> {
    type V = (K, V);

    closed spec fn view(&self) -> (K, V) {
        (self.key, self.value)
    }
}

/// An ordered map in a chain of segments of at most `N` records each.
///
/// The map is its own head segment and owns the segment behind it. Each
/// segment keeps its records ascending by key, and a key is in one segment
/// only. A new record goes into the first segment in which its sorted
/// position lies within the capacity. Only each segment by itself is promised
/// to be in order: whoever needs the whole walk sorted sorts it.
#[derive(Debug)]
pub struct SlabMap<K: Ord, V, const N: usize> {
    slots: Vec<Record<K, V>>,
    tail: Option<Box<SlabMap<K, V, N>>>,
}

impl<K: Ord, V, const N: usize> SlabMap<K, V, N> {
    /// The segments from the head on, each with its pairs in order.
    pub closed spec fn segments(&self) -> Seq<Seq<(K, V)>>
        decreases self,
    {
        let head = self.slots@.map_values(|r: Record<K, V>| r@);
        match self.tail {
            None => cons(head, Seq::empty()),
            Some(t) => cons(head, t.segments()),
        }
    }

    /// The pairs of the head segment, in order.
    pub open spec fn head(&self) -> Seq<(K, V)> {
        self.segments().first()
    }

    /// The segments behind the head.
    pub open spec fn rest(&self) -> Seq<Seq<(K, V)>> {
        self.segments().drop_first()
    }

    /// The invariant: every segment is ascending and within capacity, and no
    /// key is in two segments.
    pub open spec fn wf(&self) -> bool {
        well_formed(self.segments(), N as nat)
    }

    /// The map from each key to the value stored with it.
    pub open spec fn view(&self) -> Map<K, V> {
        chain_map(self.segments())
    }

    /// The pairs in the order in which the map is walked: segment by segment
    /// from the head, each segment ascending.
    pub open spec fn entries(&self) -> Seq<(K, V)> {
        self.segments().flatten()
    }

    /// An empty map.
    pub fn new() -> (map: SlabMap<K, V, N>)
        ensures
            map.wf(),
            map.segments() == fresh::<K, V>(),
            map@ == Map::<K, V>::empty(),
            map.entries() == Seq::<(K, V)>::empty(),
    {
        let map = SlabMap { slots: Vec::with_capacity(N), tail: None };
        proof {
            assert(map.head() =~= Seq::<(K, V)>::empty());
            lemma_fresh::<K, V>(N as nat);
        }
        map
    }

    /// Looks for `key` in the head segment.
    ///
    /// `Ok` holds the index of the record with that key. `Err` holds the
    /// index at which a record with that key would keep the segment in
    /// order, or `None` where that index lies beyond the capacity.
    pub fn binary_search(&self, key: &K) -> (found: Result<usize, Option<usize>>)
        requires
            total_order::<K>(),
            self.wf(),
        ensures
            match found {
                Ok(i) => i < self.head().len() && self.head()[i as int].0 == *key,
                Err(Some(at)) => !holds(self.head(), *key) && at == rank(self.head(), *key) && at
                    < N,
                Err(None) => !holds(self.head(), *key) && rank(self.head(), *key) >= N,
            },
    {
        let ghost head = self.head();
        let mut lo: usize = 0;
        let mut hi: usize = self.slots.len();
        while lo < hi
            invariant
                total_order::<K>(),
                head == self.head(),
                ascending(head),
                head.len() == self.slots.len(),
                lo <= hi <= head.len(),
                forall|j: int| 0 <= j < lo ==> key_lt(head[j].0, *key),
                forall|j: int| hi <= j < head.len() ==> key_lt(*key, head[j].0),
            decreases hi - lo,
        {
            let mid: usize = lo + (hi - lo) / 2;
            match compare(&self.slots[mid].key, key) {
                Side::Before => {
                    proof {
                        assert forall|j: int| 0 <= j < mid + 1 implies key_lt(head[j].0, *key) by {
                            if j < mid {
                                lemma_lt_transitive(head[j].0, head[mid as int].0, *key);
                            }
                        }
                    }
                    lo = mid + 1;
                },
                Side::Same => {
                    return Ok(mid);
                },
                Side::After => {
                    proof {
                        assert forall|j: int| mid <= j < head.len() implies key_lt(
                            *key,
                            head[j].0,
                        ) by {
                            if mid < j {
                                lemma_lt_transitive(*key, head[mid as int].0, head[j].0);
                            }
                        }
                    }
                    hi = mid;
                },
            }
        }
        proof {
            assert forall|j: int| 0 <= j < head.len() implies head[j].0 != *key && (lo <= j
                ==> !key_lt(head[j].0, *key)) by {
                lemma_trichotomy(head[j].0, *key);
            }
            lemma_rank_is(head, *key, lo as int);
        }
        if lo >= N {
            Err(None)
        } else {
            Err(Some(lo))
        }
    }

    /// A chain segment that holds the one record `record`.
    fn new_tail(record: Record<K, V>) -> (tail: Box<Self>)
        requires
            N > 0,
        ensures
            tail.segments() == seq![seq![record@]],
    {
        let mut map = SlabMap { slots: Vec::with_capacity(N), tail: None };
        map.slots.push(record);
        proof {
            assert(map.head() =~= seq![record@]);
        }
        Box::new(map)
    }

    /// One step of the walk that binds `key` to `value`, at this segment.
    ///
    /// `has_fallback` says that a segment nearer the head has already
    /// claimed the place for a new record. Then this segment and those after
    /// it only look for `key`: where they hold it, the value is overwritten
    /// and the old value returned; where they do not, nothing changes and key
    /// and value come back as `Err`. Without a claim the pair is always
    /// bound, and `Ok(None)` says that the key was new.
    pub fn insert_inner(&mut self, key: K, value: V, has_fallback: bool) -> (done: Result<
        Option<V>,
        (K, V),
    >)
        requires
            total_order::<K>(),
            N > 0,
            old(self).wf(),
        ensures
            final(self).wf(),
            match done {
                Ok(Some(prev)) => {
                    &&& old(self)@.contains_key(key)
                    &&& prev == old(self)@[key]
                    &&& final(self).segments() == replace(old(self).segments(), key, value)
                },
                Ok(None) => {
                    &&& !has_fallback
                    &&& !old(self)@.contains_key(key)
                    &&& final(self).segments() == place(
                        old(self).segments(),
                        N as nat,
                        key,
                        value,
                    )
                },
                Err(back) => {
                    &&& has_fallback
                    &&& !old(self)@.contains_key(key)
                    &&& back == (key, value)
                    &&& final(self).segments() == old(self).segments()
                },
            },
        decreases old(self).segments().len(),
    {
        let ghost chain0 = self.segments();
        let ghost head0 = self.head();
        let ghost rest0 = self.rest();
        let ghost key0 = key;
        let ghost value0 = value;
        proof {
            self.lemma_unfold();
            lemma_chain_map_dom(chain0);
            lemma_chain_map_dom(rest0);
            lemma_inserted(chain0, N as nat, key0, value0);
        }
        let mut key = key;
        let mut value = value;
        let mut claim: Option<usize> = None;
        match self.binary_search(&key) {
            Ok(i) => {
                std::mem::swap(&mut self.slots[i].value, &mut value);
                proof {
                    lemma_slot_unique(head0, i as int);
                    assert(self.head() =~= head0.update(i as int, (key0, value0)));
                }
                return Ok(Some(value));
            },
            Err(at) => {
                if let Some(index) = at {
                    if !has_fallback {
                        claim = Some(index);
                    }
                }
                if let Some(t) = &mut self.tail {
                    match t.insert_inner(key, value, has_fallback || claim.is_some()) {
                        Ok(prev) => {
                            return Ok(prev);
                        },
                        Err((k, v)) => {
                            key = k;
                            value = v;
                        },
                    }
                }
            },
        }
        proof {
            lemma_rank_splits(head0, key0);
        }
        if let Some(index) = claim {
            if self.slots.len() >= N {
                let last = self.slots.pop().unwrap();
                self.slots.insert(index, Record { key, value });
                let ghost head1 = head0.insert(index as int, (key0, value0)).drop_last();
                if let Some(t) = &mut self.tail {
                    let moved = t.insert_inner(last.key, last.value, false);
                    assert(moved matches Ok(None));
                } else {
                    self.tail = Some(Self::new_tail(last));
                }
                proof {
                    assert(self.head() =~= head1);
                    assert(self.rest() == place(rest0, N as nat, head0.last().0, head0.last().1));
                }
            } else {
                self.slots.insert(index, Record { key, value });
                proof {
                    assert(self.head() =~= head0.insert(index as int, (key0, value0)));
                }
            }
            return Ok(None);
        } else if !has_fallback {
            self.tail = Some(Self::new_tail(Record { key, value }));
            proof {
                assert(self.rest() == place(rest0, N as nat, key0, value0));
            }
            return Ok(None);
        }
        Err((key, value))
    }

    /// Binds `key` to `value` and returns the value that `key` had before.
    ///
    /// A key that is there keeps its record, with the new value. A new key
    /// goes into the first segment in which its sorted position lies within
    /// the capacity; where that segment is full, its last record moves on
    /// into the segments behind it. Where no segment takes the key, a new
    /// segment ends the chain.
    pub fn insert(&mut self, key: K, value: V) -> (prev: Option<V>)
        requires
            total_order::<K>(),
            N > 0,
            old(self).wf(),
        ensures
            final(self).wf(),
            prev == old(self)@.get(key),
            final(self)@ == old(self)@.insert(key, value),
            final(self).segments() == inserted(old(self).segments(), N as nat, key, value),
            final(self).entries().len() == old(self).entries().len() + (if prev is None {
                1int
            } else {
                0int
            }),
    {
        proof {
            lemma_chain_map_dom(self.segments());
            lemma_inserted(self.segments(), N as nat, key, value);
            lemma_entries(self.segments(), N as nat);
            lemma_entries(inserted(self.segments(), N as nat, key, value), N as nat);
        }
        match self.insert_inner(key, value, false) {
            Ok(prev) => prev,
            Err(_) => unreached(),
        }
    }

    /// The value that `key` is bound to.
    pub fn get(&self, key: &K) -> (found: Option<&V>)
        requires
            total_order::<K>(),
            self.wf(),
        ensures
            match found {
                Some(value) => self@.get(*key) == Some(*value),
                None => self@.get(*key) is None,
            },
    {
        let mut slab: &SlabMap<K, V, N> = self;
        loop
            invariant
                total_order::<K>(),
                slab.wf(),
                slab@.get(*key) == self@.get(*key),
            decreases slab.segments().len(),
        {
            proof {
                slab.lemma_unfold();
                lemma_chain_map_dom(slab.segments());
            }
            match slab.binary_search(key) {
                Ok(i) => {
                    proof {
                        lemma_slot_unique(slab.head(), i as int);
                    }
                    return Some(&slab.slots[i].value);
                },
                Err(_) => {
                    match &slab.tail {
                        Some(t) => {
                            slab = &**t;
                        },
                        None => {
                            return None;
                        },
                    }
                },
            }
        }
    }

    /// Whether `key` is bound.
    pub fn contains_key(&self, key: &K) -> (found: bool)
        requires
            total_order::<K>(),
            self.wf(),
        ensures
            found == self@.contains_key(*key),
            found == self@.get(*key).is_some(),
    {
        let mut slab: &SlabMap<K, V, N> = self;
        loop
            invariant
                total_order::<K>(),
                slab.wf(),
                slab@.contains_key(*key) == self@.contains_key(*key),
            decreases slab.segments().len(),
        {
            proof {
                slab.lemma_unfold();
                lemma_chain_map_dom(slab.segments());
            }
            match slab.binary_search(key) {
                Ok(_) => {
                    return true;
                },
                Err(_) => {
                    match &slab.tail {
                        Some(t) => {
                            slab = &**t;
                        },
                        None => {
                            return false;
                        },
                    }
                },
            }
        }
    }

    /// A walk over all pairs, from the head segment on.
    pub fn iter<'a>(&'a self) -> (walk: Iter<'a, K, V, N>)
        ensures
            walk.wf(),
            walk.remaining() == self.entries(),
    {
        Iter { map: self, cur: 0 }
    }

    /// The chain is the head segment followed by the rest, and both are what
    /// the fields hold.
    proof fn lemma_unfold(&self)
        ensures
            self.segments() == cons(self.head(), self.rest()),
            self.head().len() == self.slots.len(),
            forall|i: int| 0 <= i < self.slots.len() ==> self.head()[i] == self.slots[i]@,
            self.rest() == match self.tail {
                None => Seq::empty(),
                Some(t) => t.segments(),
            },
    {
        let head = self.slots@.map_values(|r: Record<K, V>| r@);
        match self.tail {
            None => lemma_cons(head, Seq::empty()),
            Some(t) => lemma_cons(head, t.segments()),
        }
    }
}

impl<K: Ord, V> Default for SlabMap<K, V, 8> {
    /// An empty map with segments of eight records.
    fn default() -> (map: Self)
        ensures
            map.wf(),
            map.segments() == fresh::<K, V>(),
            map@ == Map::<K, V>::empty(),
            map.entries() == Seq::<(K, V)>::empty(),
    {
        SlabMap::new()
    }
}

impl<K: Clone, V: Clone> Clone for Record<K, V> {
    /// A record with a clone of the key and a clone of the value.
    fn clone(&self) -> (copy: Self)
        ensures
            cloned::<K>(self@.0, copy@.0),
            cloned::<V>(self@.1, copy@.1),
    {
        Record { key: self.key.clone(), value: self.value.clone() }
    }
}

impl<K: Ord + Clone, V: Clone, const N: usize> Clone for SlabMap<K, V, N> {
    /// A map of its own with a clone of every record, segment by segment.
    ///
    /// The copy shares nothing with `self`. Where cloning a key gives that
    /// key again, the copy is well formed if `self` is; where that holds of
    /// the values too, the copy has the very segments of `self`.
    fn clone(&self) -> (copy: Self)
        ensures
            chain_cloned(self.segments(), copy.segments()),
            clone_is_copy::<K>() && self.wf() ==> copy.wf(),
            clone_is_copy::<K>() && clone_is_copy::<V>() ==> copy.segments() == self.segments(),
        decreases self,
    {
        let mut slots: Vec<Record<K, V>> = Vec::with_capacity(N);
        let mut i: usize = 0;
        while i < self.slots.len()
            invariant
                i <= self.slots.len(),
                slots.len() == i,
                forall|j: int|
                    0 <= j < i ==> cloned::<K>(self.slots[j]@.0, (#[trigger] slots[j])@.0)
                        && cloned::<V>(self.slots[j]@.1, slots[j]@.1),
            decreases self.slots.len() - i,
        {
            slots.push(self.slots[i].clone());
            i += 1;
        }
        let tail = match &self.tail {
            None => None,
            Some(t) => Some(Box::new((**t).clone())),
        };
        let copy = SlabMap { slots, tail };
        proof {
            if clone_is_copy::<K>() {
                if self.wf() {
                    lemma_cloned_keys(self.segments(), copy.segments(), N as nat);
                }
                if clone_is_copy::<V>() {
                    lemma_faithful_clone(self.segments(), copy.segments());
                }
            }
        }
        copy
    }
}

/// A walk over the pairs of a map.
pub struct Iter<'a, K: Ord, V, const N: usize> {
    map: &'a SlabMap<K, V, N>,
    cur: usize,
}

impl<'a, K: Ord, V, const N: usize> Iter<'a, K, V, N> {
    /// The walk stands at a record of its segment, or at the segment's end.
    pub closed spec fn wf(&self) -> bool {
        self.cur <= self.map.slots.len()
    }

    /// The pairs that the walk has yet to yield, in order.
    pub closed spec fn remaining(&self) -> Seq<(K, V)> {
        self.map.entries().skip(self.cur as int)
    }

    /// Yields the next pair, or `None` when the walk is over.
    pub fn next(&mut self) -> (item: Option<(&'a K, &'a V)>)
        requires
            old(self).wf(),
        ensures
            final(self).wf(),
            match item {
                Some((key, value)) => {
                    &&& old(self).remaining().len() > 0
                    &&& (*key, *value) == old(self).remaining().first()
                    &&& final(self).remaining() == old(self).remaining().drop_first()
                },
                None => {
                    &&& old(self).remaining().len() == 0
                    &&& final(self).remaining().len() == 0
                },
            },
    {
        loop
            invariant
                self.wf(),
                self.remaining() == old(self).remaining(),
            decreases self.map.segments().len(),
        {
            proof {
                self.map.lemma_unfold();
                lemma_cons(self.map.head(), self.map.rest());
            }
            if self.cur == self.map.slots.len() {
                match &self.map.tail {
                    Some(t) => {
                        self.map = &**t;
                        self.cur = 0;
                    },
                    None => {
                        return None;
                    },
                }
            } else {
                let cur = self.cur;
                self.cur += 1;
                let r = &self.map.slots[cur];
                return Some((&r.key, &r.value));
            }
        }
    }
}

} // verus!
