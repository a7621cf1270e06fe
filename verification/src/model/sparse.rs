//! Keys that are handed out again after they were removed, and the arena and
//! the map that are built on them.

use vstd::prelude::*;
use crate::map::{MapGet, MapMut};
use crate::seq_facts::lemma_seq_fills_set;
use core::marker::PhantomData;
use std::collections::hash_map::Entry;
use std::collections::HashMap;
use std::collections::HashSet;

verus! {

broadcast use vstd::std_specs::hash::group_hash_axioms;

/// A key that stands for a number and can be handed out again.
pub trait Key: Copy {
    /// The number of keys of this type that can be told apart.
    spec fn limit() -> nat;

    /// The number that the key stands for.
    spec fn index_spec(&self) -> usize;

    /// Returns the number that the key stands for.
    fn index(&self) -> (i: usize)
        ensures
            i == self.index_spec(),
    ;

    /// Makes the key of a number.
    fn from_index(index: usize) -> (k: Self)
        requires
            index < Self::limit(),
        ensures
            k.index_spec() == index,
    ;

    /// Two keys of one number are one key.
    proof fn lemma_index_injective(a: Self, b: Self)
        requires
            a.index_spec() == b.index_spec(),
        ensures
            a == b,
    ;

    /// Every number below the limit is a `usize`.
    proof fn lemma_limit_fits()
        ensures
            Self::limit() <= usize::MAX,
    ;

    /// Every number below the limit has a key.
    proof fn lemma_key_exists(index: usize)
        requires
            index < Self::limit(),
        ensures
            exists|k: Self| k.index_spec() == index,
    ;
}

/// The keys of finitely many numbers are finitely many.
pub proof fn lemma_keys_finite<K: Key>(numbers: Set<usize>)
    requires
        numbers.finite(),
        forall|n: usize| numbers.contains(n) ==> n < K::limit(),
    ensures
        Set::new(|k: K| numbers.contains(k.index_spec())).finite(),
{
    let key_of = |n: usize| choose|k: K| k.index_spec() == n;
    let all = Set::new(|k: K| numbers.contains(k.index_spec()));
    assert(all.subset_of(numbers.map(key_of))) by {
        assert forall|k: K| all.contains(k) implies numbers.map(key_of).contains(k) by {
            K::lemma_key_exists(k.index_spec());
            K::lemma_index_injective(key_of(k.index_spec()), k);
            assert(numbers.contains(k.index_spec()) && key_of(k.index_spec()) == k);
        }
    }
    numbers.lemma_map_finite(key_of);
    vstd::set_lib::lemma_set_subset_finite(numbers.map(key_of), all);
}

/// Returns the keys whose numbers `numbers` holds, each once, in no
/// particular order.
pub fn keys_of<K: Key>(numbers: &HashSet<usize>) -> (keys: Vec<K>)
    requires
        forall|n: usize| numbers@.contains(n) ==> n < K::limit(),
    ensures
        keys@.no_duplicates(),
        keys@.len() == numbers@.len(),
        forall|k: K| keys@.contains(k) <==> numbers@.contains(k.index_spec()),
        forall|n: usize|
            numbers@.contains(n) ==> exists|j: int|
                0 <= j < keys@.len() && (#[trigger] keys@[j]).index_spec() == n,
{
    let mut keys: Vec<K> = Vec::with_capacity(numbers.len());
    let ghost mut walked: Seq<usize> = Seq::empty();
    for n in it: numbers.iter()
        invariant
            forall|n: usize| numbers@.contains(n) ==> n < K::limit(),
            it.seq().unref().to_set() == numbers@,
            it.seq().no_duplicates(),
            it.seq().len() == numbers@.len(),
            walked.len() == it.index(),
            forall|j: int| 0 <= j < walked.len() ==> #[trigger] walked[j] == *it.seq()[j],
            keys@.len() == it.index(),
            forall|j: int| 0 <= j < keys@.len() ==> (#[trigger] keys@[j]).index_spec() == walked[j],
            walked.no_duplicates(),
            forall|j: int| 0 <= j < walked.len() ==> numbers@.contains(#[trigger] walked[j]),
    {
        proof {
            assert(it.seq().unref()[it.index() as int] == *n);
            assert(it.seq().unref().to_set().contains(*n));
            assert forall|j: int| 0 <= j < walked.len() implies walked[j] != *n by {
                assert(*it.seq()[j] != *it.seq()[it.index() as int]);
            }
            walked = walked.push(*n);
        }
        keys.push(K::from_index(*n));
    }
    proof {
        assert(walked.len() == numbers@.len());
        lemma_seq_fills_set(walked, numbers@);
        assert forall|i: int, j: int|
            0 <= i < keys@.len() && 0 <= j < keys@.len() && i != j implies keys@[i] != keys@[j] by {
            assert(walked[i] == keys@[i].index_spec());
            assert(walked[j] == keys@[j].index_spec());
        }
        assert forall|k: K| keys@.contains(k) <==> numbers@.contains(k.index_spec()) by {
            if keys@.contains(k) {
                let i = choose|i: int| 0 <= i < keys@.len() && keys@[i] == k;
                assert(walked[i] == k.index_spec());
            }
            if numbers@.contains(k.index_spec()) {
                assert(walked.contains(k.index_spec()));
                let i = choose|i: int| 0 <= i < walked.len() && walked[i] == k.index_spec();
                K::lemma_index_injective(keys@[i], k);
            }
        }
        assert forall|n: usize| numbers@.contains(n) implies exists|j: int|
            0 <= j < keys@.len() && (#[trigger] keys@[j]).index_spec() == n by {
            assert(walked.contains(n));
            let i = choose|i: int| 0 <= i < walked.len() && walked[i] == n;
            assert(keys@[i].index_spec() == n);
        }
    }
    keys
}

/// An arena whose keys are freed on removal and handed out again by later
/// insertions, the most recently freed first.
#[derive(Debug)]
pub struct Domain<K, T> {
    values: HashMap<usize, T>,
    free: Vec<usize>,
    next: usize,
    _phantom: PhantomData<K>,
}

impl<K, T> View for Domain<K, T> {
    type V = Map<usize, T>;

    /// The live keys, by number, with their values.
    closed spec fn view(&self) -> Map<usize, T> {
        self.values@
    }
}

impl<K, T> Default for Domain<K, T> {
    fn default() -> (d: Self)
        ensures
            d@ == Map::<usize, T>::empty(),
            d.free() == Seq::<usize>::empty(),
            d.next_index() == 0,
    {
        Domain { values: HashMap::new(), free: Vec::new(), next: 0, _phantom: PhantomData }
    }
}

impl<K, T> Domain<K, T> {
    /// The numbers of the freed keys, the most recently freed last.
    pub closed spec fn free(&self) -> Seq<usize> {
        self.free@
    }

    /// The number that the next fresh key gets.
    pub closed spec fn next_index(&self) -> usize {
        self.next
    }
}

impl<K: Key, T> Domain<K, T> {
    /// What holds of every arena: a freed key is not live and is freed once,
    /// and every key that was ever handed out lies below the next fresh one.
    pub open spec fn wf(&self) -> bool {
        &&& self.free().no_duplicates()
        &&& forall|i: int|
            0 <= i < self.free().len() ==> !self@.contains_key(#[trigger] self.free()[i])
                && self.free()[i] < self.next_index()
        &&& forall|n: usize| self@.contains_key(n) ==> n < self.next_index()
        &&& self.next_index() <= K::limit()
    }

    /// Whether `k` is live.
    pub open spec fn contains_key(&self, k: K) -> bool {
        self@.contains_key(k.index_spec())
    }

    /// The value stored under `k`.
    pub open spec fn value(&self, k: K) -> T
        recommends
            self.contains_key(k),
    {
        self@[k.index_spec()]
    }

    /// Whether an insertion can still get a key.
    pub open spec fn has_room(&self) -> bool {
        self.free().len() > 0 || self.next_index() < K::limit()
    }

    /// The number of insertions for which keys are left.
    pub open spec fn room(&self) -> nat {
        (self.free().len() + K::limit() - self.next_index()) as nat
    }

    /// The number of the key that the next insertion hands out.
    pub open spec fn upcoming(&self) -> usize
        recommends
            self.has_room(),
    {
        if self.free().len() > 0 {
            self.free().last()
        } else {
            self.next_index()
        }
    }

    /// The live keys are finitely many.
    pub proof fn lemma_finite(&self)
        requires
            self.wf(),
        ensures
            Set::new(|k: K| self.contains_key(k)).finite(),
    {
        lemma_keys_finite::<K>(self@.dom());
        assert(Set::new(|k: K| self.contains_key(k)) =~= Set::new(
            |k: K| self@.dom().contains(k.index_spec()),
        ));
    }

    /// The live keys, each once, in no particular order.
    pub fn keys(&self) -> (r: Vec<K>)
        requires
            self.wf(),
        ensures
            r@.no_duplicates(),
            r@.len() == self@.len(),
            forall|k: K| r@.contains(k) <==> self.contains_key(k),
    {
        let mut keys: Vec<K> = Vec::with_capacity(self.values.len());
        let ghost mut walked: Seq<usize> = Seq::empty();
        for n in it: self.values.keys()
            invariant
                self.wf(),
                it.seq().unref().to_set() == self@.dom(),
                it.seq().no_duplicates(),
                it.seq().len() == self@.dom().len(),
                walked.len() == it.index(),
                forall|j: int| 0 <= j < walked.len() ==> #[trigger] walked[j] == *it.seq()[j],
                keys@.len() == it.index(),
                forall|j: int|
                    0 <= j < keys@.len() ==> (#[trigger] keys@[j]).index_spec() == walked[j],
                walked.no_duplicates(),
                forall|j: int| 0 <= j < walked.len() ==> self@.contains_key(#[trigger] walked[j]),
        {
            proof {
                assert(it.seq().unref()[it.index() as int] == *n);
                assert(it.seq().unref().to_set().contains(*n));
                assert forall|j: int| 0 <= j < walked.len() implies walked[j] != *n by {
                    assert(*it.seq()[j] != *it.seq()[it.index() as int]);
                }
                walked = walked.push(*n);
            }
            keys.push(K::from_index(*n));
        }
        proof {
            assert(walked.len() == self@.dom().len());
            lemma_seq_fills_set(walked, self@.dom());
            assert forall|i: int, j: int|
                0 <= i < keys@.len() && 0 <= j < keys@.len() && i != j implies keys@[i]
                != keys@[j] by {
                assert(walked[i] == keys@[i].index_spec());
                assert(walked[j] == keys@[j].index_spec());
            }
            assert forall|k: K| keys@.contains(k) <==> self.contains_key(k) by {
                if keys@.contains(k) {
                    let i = choose|i: int| 0 <= i < keys@.len() && keys@[i] == k;
                    assert(walked[i] == k.index_spec());
                }
                if self.contains_key(k) {
                    assert(walked.contains(k.index_spec()));
                    let i = choose|i: int| 0 <= i < walked.len() && walked[i] == k.index_spec();
                    K::lemma_index_injective(keys@[i], k);
                }
            }
        }
        keys
    }

    /// The number of live keys.
    pub fn len(&self) -> (n: usize)
        ensures
            n == self@.len(),
    {
        self.values.len()
    }

    /// Stores `value` under a key that is not live: the most recently freed
    /// one if there is any, else a fresh one.
    pub fn insert(&mut self, value: T) -> (k: K)
        requires
            old(self).wf(),
            old(self).has_room(),
        ensures
            final(self).wf(),
            !old(self).contains_key(k),
            k.index_spec() == old(self).upcoming(),
            final(self)@ == old(self)@.insert(k.index_spec(), value),
            final(self).free() == (if old(self).free().len() > 0 {
                old(self).free().drop_last()
            } else {
                old(self).free()
            }),
            final(self).next_index() == (if old(self).free().len() > 0 {
                old(self).next_index() as int
            } else {
                old(self).next_index() + 1
            }),
    {
        let number: usize = match self.free.pop() {
            Some(number) => number,
            None => {
                let number: usize = self.next;
                proof {
                    K::lemma_limit_fits();
                }
                self.next = number + 1;
                number
            },
        };
        self.values.insert(number, value);
        proof {
            let before = old(self).free();
            if before.len() > 0 {
                assert(number == before[before.len() - 1]);
                assert(self.free() =~= before.drop_last());
                assert forall|i: int| 0 <= i < self.free().len() implies !self@.contains_key(
                    #[trigger] self.free()[i],
                ) && self.free()[i] < self.next_index() by {
                    assert(self.free()[i] == before[i]);
                    assert(before[i] != before[before.len() - 1]);
                }
                assert(self.free().no_duplicates()) by {
                    assert forall|i: int, j: int|
                        0 <= i < self.free().len() && 0 <= j < self.free().len() && i
                            != j implies self.free()[i] != self.free()[j] by {
                        assert(self.free()[i] == before[i]);
                        assert(self.free()[j] == before[j]);
                    }
                }
            } else {
                assert(self.free() =~= before);
                assert forall|i: int| 0 <= i < self.free().len() implies !self@.contains_key(
                    #[trigger] self.free()[i],
                ) && self.free()[i] < self.next_index() by {
                    assert(self.free()[i] == before[i]);
                }
            }
            assert forall|n: usize| self@.contains_key(n) implies n < self.next_index() by {
                if n != number {
                    assert(old(self)@.contains_key(n));
                }
            }
        }
        K::from_index(number)
    }

    /// Removes a live key and hands its value back. The key is freed.
    pub fn remove(&mut self, key: K) -> (value: T)
        requires
            old(self).wf(),
            old(self).contains_key(key),
        ensures
            final(self).wf(),
            value == old(self).value(key),
            final(self)@ == old(self)@.remove(key.index_spec()),
            final(self).free() == old(self).free().push(key.index_spec()),
            final(self).next_index() == old(self).next_index(),
    {
        let number: usize = key.index();
        let removed = self.values.remove(&number);
        self.free.push(number);
        proof {
            assert forall|i: int, j: int|
                0 <= i < self.free().len() && 0 <= j < self.free().len() && i != j implies self.free()[i]
                != self.free()[j] by {
                if i < old(self).free().len() {
                    assert(!old(self)@.contains_key(old(self).free()[i]));
                }
                if j < old(self).free().len() {
                    assert(!old(self)@.contains_key(old(self).free()[j]));
                }
            }
        }
        match removed {
            Some(value) => value,
            None => vstd::pervasive::unreached(),
        }
    }

    /// Borrows the value stored under a live key.
    pub fn index(&self, k: K) -> (r: &T)
        requires
            self.contains_key(k),
        ensures
            *r == self.value(k),
    {
        let number: usize = k.index();
        match self.values.get(&number) {
            Some(value) => value,
            None => vstd::pervasive::unreached(),
        }
    }

    /// Borrows the value stored under a live key for writing. Nothing else
    /// changes.
    pub fn index_mut(&mut self, k: K) -> (r: &mut T)
        requires
            old(self).contains_key(k),
        ensures
            *r == old(self).value(k),
            final(self)@ == old(self)@.insert(k.index_spec(), *final(r)),
            final(self).free() == old(self).free(),
            final(self).next_index() == old(self).next_index(),
    {
        let number: usize = k.index();
        match self.values.entry(number) {
            Entry::Occupied(occupied) => occupied.into_mut(),
            Entry::Vacant(_) => vstd::pervasive::unreached(),
        }
    }
}

impl<K: Key, T: Default> Domain<K, T> {
    /// Stores the default value of `T` under a key that is not live: the
    /// most recently freed one if there is any, else a fresh one.
    pub fn insert_default(&mut self) -> (k: K)
        requires
            old(self).wf(),
            old(self).has_room(),
        ensures
            final(self).wf(),
            !old(self).contains_key(k),
            k.index_spec() == old(self).upcoming(),
            final(self).contains_key(k),
            call_ensures(T::default, (), final(self).value(k)),
            final(self)@ == old(self)@.insert(k.index_spec(), final(self).value(k)),
            final(self).free() == (if old(self).free().len() > 0 {
                old(self).free().drop_last()
            } else {
                old(self).free()
            }),
            final(self).next_index() == (if old(self).free().len() > 0 {
                old(self).next_index() as int
            } else {
                old(self).next_index() + 1
            }),
    {
        self.insert(T::default())
    }
}

/// A map from reusable keys to values, with a default for the keys that were
/// never written.
#[derive(Debug)]
pub struct SparseMap<K, T> {
    values: HashMap<usize, T>,
    default: T,
    _phantom: PhantomData<K>,
}

impl<K: Key, T: Copy> SparseMap<K, T> {
    /// The value of every key that was never written.
    pub closed spec fn default_spec(&self) -> T {
        self.default
    }

    /// Makes a map in which every key has the value `default`.
    pub fn new(default: T) -> (m: SparseMap<K, T>)
        ensures
            m.default_spec() == default,
            forall|k: K| m.at(k) == default,
    {
        SparseMap { values: HashMap::new(), default, _phantom: PhantomData }
    }

    /// Makes a map in which every key has the value `default`, with room for
    /// `capacity` keys.
    pub fn with_capacity(default: T, capacity: usize) -> (m: SparseMap<K, T>)
        ensures
            m.default_spec() == default,
            forall|k: K| m.at(k) == default,
    {
        SparseMap { values: HashMap::with_capacity(capacity), default, _phantom: PhantomData }
    }
}

impl<K: Key, T: Copy> MapGet<K> for SparseMap<K, T> {
    type Value = T;

    open spec fn defined(&self, k: K) -> bool {
        true
    }

    closed spec fn at(&self, k: K) -> T {
        if self.values@.contains_key(k.index_spec()) {
            self.values@[k.index_spec()]
        } else {
            self.default
        }
    }

    fn get(&self, k: K) -> (r: &T) {
        let number: usize = k.index();
        match self.values.get(&number) {
            Some(value) => value,
            None => &self.default,
        }
    }
}

impl<K: Key, T: Copy> MapMut<K> for SparseMap<K, T> {
    /// Stores the default under `k` first when `k` was never written before.
    fn get_mut(&mut self, k: K) -> (r: &mut T)
        ensures
            final(self).default_spec() == old(self).default_spec(),
    {
        let number: usize = k.index();
        proof {
            assert forall|j: K| j != k implies j.index_spec() != k.index_spec() by {
                if j.index_spec() == k.index_spec() {
                    K::lemma_index_injective(j, k);
                }
            }
        }
        let default = self.default;
        self.values.entry(number).or_insert(default)
    }
}


} // verus!
