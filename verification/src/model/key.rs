use vstd::prelude::*;
use super::dense;
use super::sparse;

verus! {

/// The largest number of handles of one kind.
pub open spec fn handle_limit() -> nat {
    0xffff_ffff
}

/// Handle of a vertex in a graph whose vertices are never removed.
#[derive(Copy, Clone, Debug, Eq, PartialEq, Ord, PartialOrd, Hash, Structural)]
pub struct DenseVert(u32);

/// Handle of an edge in a graph whose edges are never removed.
#[derive(Copy, Clone, Debug, Eq, PartialEq, Ord, PartialOrd, Hash, Structural)]
pub struct DenseEdge(u32);

impl dense::Key for DenseVert {
    open spec fn limit() -> nat {
        handle_limit()
    }

    closed spec fn index_spec(&self) -> usize {
        self.0 as usize
    }

    fn index(&self) -> (i: usize) {
        self.0 as usize
    }

    fn from_index(index: usize) -> (k: Self) {
        DenseVert(index as u32)
    }

    proof fn lemma_index_injective(a: Self, b: Self) {
    }

    proof fn lemma_key_exists(index: usize) {
        let k: DenseVert = DenseVert(index as u32);
        assert(k.index_spec() == index);
    }
}

impl dense::Key for DenseEdge {
    open spec fn limit() -> nat {
        handle_limit()
    }

    closed spec fn index_spec(&self) -> usize {
        self.0 as usize
    }

    fn index(&self) -> (i: usize) {
        self.0 as usize
    }

    fn from_index(index: usize) -> (k: Self) {
        DenseEdge(index as u32)
    }

    proof fn lemma_index_injective(a: Self, b: Self) {
    }

    proof fn lemma_key_exists(index: usize) {
        let k: DenseEdge = DenseEdge(index as u32);
        assert(k.index_spec() == index);
    }
}

impl dense::Key for usize {
    open spec fn limit() -> nat {
        usize::MAX as nat
    }

    open spec fn index_spec(&self) -> usize {
        *self
    }

    fn index(&self) -> (i: usize) {
        *self
    }

    fn from_index(index: usize) -> (k: Self) {
        index
    }

    proof fn lemma_index_injective(a: Self, b: Self) {
    }

    proof fn lemma_key_exists(index: usize) {
        let k: usize = index;
        assert(k.index_spec() == index);
    }
}

/// Handle of a vertex that can be removed; a later vertex may get it again.
#[derive(Copy, Clone, Debug, Eq, PartialEq, Ord, PartialOrd, Hash, Structural)]
pub struct SparseVert(u32);

/// Handle of an edge that can be removed; a later edge may get it again.
#[derive(Copy, Clone, Debug, Eq, PartialEq, Ord, PartialOrd, Hash, Structural)]
pub struct SparseEdge(u32);

impl sparse::Key for SparseVert {
    open spec fn limit() -> nat {
        handle_limit()
    }

    closed spec fn index_spec(&self) -> usize {
        self.0 as usize
    }

    fn index(&self) -> (i: usize) {
        self.0 as usize
    }

    fn from_index(index: usize) -> (k: Self) {
        SparseVert(index as u32)
    }

    proof fn lemma_index_injective(a: Self, b: Self) {
    }

    proof fn lemma_limit_fits() {
    }

    proof fn lemma_key_exists(index: usize) {
        let k: SparseVert = SparseVert(index as u32);
        assert(k.index_spec() == index);
    }
}

impl sparse::Key for SparseEdge {
    open spec fn limit() -> nat {
        handle_limit()
    }

    closed spec fn index_spec(&self) -> usize {
        self.0 as usize
    }

    fn index(&self) -> (i: usize) {
        self.0 as usize
    }

    fn from_index(index: usize) -> (k: Self) {
        SparseEdge(index as u32)
    }

    proof fn lemma_index_injective(a: Self, b: Self) {
    }

    proof fn lemma_limit_fits() {
    }

    proof fn lemma_key_exists(index: usize) {
        let k: SparseEdge = SparseEdge(index as u32);
        assert(k.index_spec() == index);
    }
}

impl sparse::Key for usize {
    open spec fn limit() -> nat {
        usize::MAX as nat
    }

    open spec fn index_spec(&self) -> usize {
        *self
    }

    fn index(&self) -> (i: usize) {
        *self
    }

    fn from_index(index: usize) -> (k: Self) {
        index
    }

    proof fn lemma_index_injective(a: Self, b: Self) {
    }

    proof fn lemma_limit_fits() {
    }

    proof fn lemma_key_exists(index: usize) {
        let k: usize = index;
        assert(k.index_spec() == index);
    }
}

} // verus!
