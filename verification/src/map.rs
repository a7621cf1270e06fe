//! Maps from the vertices or edges of a graph to values.

use vstd::prelude::*;

verus! {

/// A mapping from keys to values: every key has a value.
pub trait MapGet<K> {
    /// The type to which keys are mapped.
    type Value;

    /// Whether `k` may be looked up. The maps of this library accept every
    /// key; an adaptor can narrow this.
    spec fn defined(&self, k: K) -> bool;

    /// The value that the map holds for `k`.
    spec fn at(&self, k: K) -> Self::Value;

    /// Borrows the value associated with a key. Reading never changes the map.
    fn get(&self, k: K) -> (r: &Self::Value)
        requires
            self.defined(k),
        ensures
            *r == self.at(k),
    ;
}

/// A mapping from keys to values whose values can be replaced.
pub trait MapMut<K>: MapGet<K> {
    /// Returns a mutable reference to the value associated with a key. What
    /// is written through it is what `k` maps to afterwards; no other key
    /// changes its value.
    fn get_mut(&mut self, k: K) -> (r: &mut Self::Value)
        requires
            forall|j: K| old(self).defined(j),
        ensures
            *r == old(self).at(k),
            final(self).at(k) == *final(r),
            forall|j: K| j != k ==> final(self).at(j) == old(self).at(j),
            forall|j: K| final(self).defined(j),
    ;
}

/// Map adaptor which unwraps `Option` values. A key can be looked up only
/// where the wrapped map holds a present value for it.
pub struct Unwrap<M>(M);

impl<M> Unwrap<M> {
    /// The wrapped map.
    pub closed spec fn inner(&self) -> M {
        self.0
    }

    /// Constructs an adaptor which unwraps the `Option` values of the given map.
    pub fn new(m: M) -> (r: Self)
        ensures
            r.inner() == m,
    {
        Unwrap(m)
    }
}

impl<K, T, M: MapGet<K, Value = Option<T>>> MapGet<K> for Unwrap<M> {
    type Value = T;

    open spec fn defined(&self, k: K) -> bool {
        self.inner().defined(k) && self.inner().at(k) is Some
    }

    open spec fn at(&self, k: K) -> T {
        self.inner().at(k).unwrap()
    }

    fn get(&self, k: K) -> (r: &T) {
        match self.0.get(k) {
            Some(value) => value,
            None => vstd::pervasive::unreached(),
        }
    }
}

} // verus!
