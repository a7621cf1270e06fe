//! Keys that are consecutive array positions, never reused, and the arena and
//! the map that are built on them.

use vstd::prelude::*;
use crate::map::{MapGet, MapMut};
use core::marker::PhantomData;

verus! {

/// A key that stands for an array position.
pub trait Key: Copy {
    /// The number of positions that keys of this type can tell apart.
    spec fn limit() -> nat;

    /// The position that the key stands for.
    spec fn index_spec(&self) -> usize;

    /// Returns the position that the key stands for.
    fn index(&self) -> (i: usize)
        ensures
            i == self.index_spec(),
    ;

    /// Makes the key of a position.
    fn from_index(index: usize) -> (k: Self)
        requires
            index < Self::limit(),
        ensures
            k.index_spec() == index,
    ;

    /// Two keys of one position are one key.
    proof fn lemma_index_injective(a: Self, b: Self)
        requires
            a.index_spec() == b.index_spec(),
        ensures
            a == b,
    ;

    /// Every position below the limit has a key.
    proof fn lemma_key_exists(index: usize)
        requires
            index < Self::limit(),
        ensures
            exists|k: Self| k.index_spec() == index,
    ;
}

/// Keys that stand at their own positions are pairwise different.
pub proof fn lemma_keys_enumerate<K: Key>(keys: Seq<K>)
    requires
        forall|i: int| 0 <= i < keys.len() ==> (#[trigger] keys[i]).index_spec() == i,
    ensures
        keys.no_duplicates(),
        forall|k: K| keys.contains(k) ==> k.index_spec() < keys.len(),
{
    assert forall|k: K| keys.contains(k) implies k.index_spec() < keys.len() by {
        let i = choose|i: int| 0 <= i < keys.len() && keys[i] == k;
        assert(keys[i].index_spec() == i);
    }
}

/// The keys of the positions below `count` are finitely many.
pub proof fn lemma_positions_finite<K: Key>(count: nat)
    requires
        count <= K::limit(),
    ensures
        Set::new(|k: K| k.index_spec() < count).finite(),
{
    let keys = Seq::new(count, |i: int| choose|k: K| k.index_spec() == i);
    let all = Set::new(|k: K| k.index_spec() < count);
    assert(all.subset_of(keys.to_set())) by {
        assert forall|k: K| all.contains(k) implies keys.to_set().contains(k) by {
            let i = k.index_spec() as int;
            K::lemma_key_exists(k.index_spec());
            K::lemma_index_injective(keys[i], k);
            assert(keys.contains(keys[i]));
        }
    }
    vstd::seq_lib::seq_to_set_is_finite(keys);
    vstd::set_lib::lemma_set_subset_finite(keys.to_set(), all);
}

/// An append-only arena: the keys are the positions `0..len`, in the order in
/// which the values came in.
#[derive(Debug)]
pub struct Domain<K, T> {
    values: Vec<T>,
    _phantom: PhantomData<K>,
}

impl<K, T> View for Domain<K, T> {
    type V = Seq<T>;

    closed spec fn view(&self) -> Seq<T> {
        self.values@
    }
}

impl<K, T> Default for Domain<K, T> {
    fn default() -> (d: Self)
        ensures
            d@ == Seq::<T>::empty(),
    {
        Domain { values: Vec::new(), _phantom: PhantomData }
    }
}

impl<K: Key, T> Domain<K, T> {
    /// Whether `k` is a key of this arena.
    pub open spec fn contains_key(&self, k: K) -> bool {
        k.index_spec() < self@.len()
    }

    /// The value stored under `k`.
    pub open spec fn value(&self, k: K) -> T
        recommends
            self.contains_key(k),
    {
        self@[k.index_spec() as int]
    }

    /// The keys of the arena, in ascending order.
    pub fn keys(&self) -> (r: Vec<K>)
        requires
            self@.len() <= K::limit(),
        ensures
            r@.len() == self@.len(),
            forall|i: int| 0 <= i < r@.len() ==> (#[trigger] r@[i]).index_spec() == i,
    {
        let n: usize = self.values.len();
        let mut keys: Vec<K> = Vec::with_capacity(n);
        let mut i: usize = 0;
        while i < n
            invariant
                i <= n,
                n <= K::limit(),
                keys@.len() == i,
                forall|j: int| 0 <= j < i ==> (#[trigger] keys@[j]).index_spec() == j,
            decreases n - i,
        {
            keys.push(K::from_index(i));
            i += 1;
        }
        keys
    }

    /// The stored values, in key order.
    pub fn values(&self) -> (r: &[T])
        ensures
            r@ == self@,
    {
        self.values.as_slice()
    }

    /// The number of keys.
    pub fn len(&self) -> (n: usize)
        ensures
            n == self@.len(),
    {
        self.values.len()
    }

    /// Stores `value` under a key that was never handed out before: the next
    /// position.
    pub fn insert(&mut self, value: T) -> (k: K)
        requires
            old(self)@.len() < K::limit(),
        ensures
            final(self)@ == old(self)@.push(value),
            k.index_spec() == old(self)@.len(),
    {
        let key = K::from_index(self.values.len());
        self.values.push(value);
        key
    }

    /// Borrows the value stored under `k`.
    pub fn index(&self, k: K) -> (r: &T)
        requires
            self.contains_key(k),
        ensures
            *r == self.value(k),
    {
        &self.values[k.index()]
    }

    /// Borrows the value stored under `k` for writing. No other value changes.
    pub fn index_mut(&mut self, k: K) -> (r: &mut T)
        requires
            old(self).contains_key(k),
        ensures
            *r == old(self).value(k),
            final(self)@ == old(self)@.update(k.index_spec() as int, *final(r)),
    {
        let i: usize = k.index();
        &mut self.values[i]
    }
}

impl<K: Key, T: Default> Domain<K, T> {
    /// Stores the default value of `T` under the next position.
    pub fn insert_default(&mut self) -> (k: K)
        requires
            old(self)@.len() < K::limit(),
        ensures
            call_ensures(T::default, (), final(self)@.last()),
            final(self)@ == old(self)@.push(final(self)@.last()),
            k.index_spec() == old(self)@.len(),
    {
        self.insert(T::default())
    }
}

/// A map from array-position keys to values, with a default for the keys that
/// were never written.
#[derive(Debug)]
pub struct DenseMap<K, T> {
    values: Vec<T>,
    default: T,
    _phantom: PhantomData<K>,
}

impl<K: Key, T: Copy> DenseMap<K, T> {
    /// The value of every key that was never written.
    pub closed spec fn default_spec(&self) -> T {
        self.default
    }

    /// Makes a map in which every key has the value `default`, with room for
    /// `capacity` keys.
    pub fn with_capacity(default: T, capacity: usize) -> (m: DenseMap<K, T>)
        ensures
            m.default_spec() == default,
            forall|k: K| m.at(k) == default,
    {
        DenseMap { values: Vec::with_capacity(capacity), default, _phantom: PhantomData }
    }
}

impl<K: Key, T: Copy> MapGet<K> for DenseMap<K, T> {
    type Value = T;

    open spec fn defined(&self, k: K) -> bool {
        true
    }

    closed spec fn at(&self, k: K) -> T {
        if k.index_spec() < self.values@.len() {
            self.values@[k.index_spec() as int]
        } else {
            self.default
        }
    }

    fn get(&self, k: K) -> (r: &T) {
        let index: usize = k.index();
        if index < self.values.len() {
            &self.values[index]
        } else {
            &self.default
        }
    }
}

impl<K: Key, T: Copy> MapMut<K> for DenseMap<K, T> {
    /// Grows the storage up to `k`, filling it with the default, when `k` was
    /// never written before.
    fn get_mut(&mut self, k: K) -> (r: &mut T)
        ensures
            final(self).default_spec() == old(self).default_spec(),
    {
        let index: usize = k.index();
        while self.values.len() <= index
            invariant
                forall|j: K| self.at(j) == old(self).at(j),
                self.default == old(self).default,
            decreases index + 1 - self.values.len(),
        {
            self.values.push(self.default);
        }
        proof {
            assert forall|j: K| j != k implies j.index_spec() != k.index_spec() by {
                if j.index_spec() == k.index_spec() {
                    K::lemma_index_injective(j, k);
                }
            }
        }
        &mut self.values[index]
    }
}

} // verus!
