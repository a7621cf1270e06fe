use vstd::prelude::*;

verus! {

/// A position in an array, stored in 32 bits.
///
/// The number is kept beside a one-byte presence mark. The mark of every
/// `Index` is set, so `Option<Index>` can use the mark's spare values for
/// `None` and is no larger than `Index` itself.
#[derive(Copy, Clone, Debug, Eq, PartialEq, Ord, PartialOrd, Hash)]
pub struct Index {
    value: u32,
    present: bool,
}

impl Index {
    /// The number of positions that an `Index` can tell apart.
    pub open spec fn limit() -> nat {
        0xffff_ffff
    }

    /// The position that this index stands for. Every index that `new` makes
    /// stands for a position below the limit; two indices that stand for one
    /// position are one index.
    pub closed spec fn index_spec(&self) -> nat {
        if self.present {
            self.value as nat
        } else {
            (self.value + 0x1_0000_0000) as nat
        }
    }

    /// Two indices of one position are one index.
    pub proof fn lemma_index_injective(a: Index, b: Index)
        requires
            a.index_spec() == b.index_spec(),
        ensures
            a == b,
    {
    }

    /// Makes the index of position `value`.
    pub fn new(value: usize) -> (r: Index)
        requires
            value < Self::limit(),
        ensures
            r.index_spec() == value,
    {
        Index { value: value as u32, present: true }
    }

    /// Returns the position that this index stands for.
    pub fn index(&self) -> (i: usize)
        ensures
            i == self.index_spec(),
            i < Self::limit(),
    {
        proof {
            use_type_invariant(self);
        }
        self.value as usize
    }

    #[verifier::type_invariant]
    spec fn inv(&self) -> bool {
        self.present && self.value < 0xffff_ffff
    }
}

} // verus!
