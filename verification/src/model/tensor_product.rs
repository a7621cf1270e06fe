//! Module implementing the tensor product of graphs.

use itertools::Itertools;
use vstd::prelude::*;
use crate::digraph::Digraph;
use crate::in_graph::{in_edge_set, InGraph};
use crate::out_graph::{out_edge_set, OutGraph};
use crate::seq_facts::{enumerates, lemma_enumerated_len, lemma_seq_within_set};

verus! {

/// A handle of a product: a handle of each factor.
#[derive(Copy, Clone, Debug, Eq, PartialEq, Ord, PartialOrd, Hash, Structural)]
pub struct Pair<A, B>(pub A, pub B);

/// The pairs of an item of `firsts` and an item of `seconds`, in the order of
/// `firsts` and, for one item of `firsts`, in the order of `seconds`.
pub open spec fn product<A, B>(firsts: Seq<A>, seconds: Seq<B>) -> Seq<Pair<A, B>> {
    Seq::new(
        firsts.len() * seconds.len(),
        |k: int| Pair(firsts[k / (seconds.len() as int)], seconds[k % (seconds.len() as int)]),
    )
}

/// The pairs of an item of `firsts` and an item of `seconds`.
pub open spec fn pair_set<A, B>(firsts: Set<A>, seconds: Set<B>) -> Set<Pair<A, B>> {
    Set::new(|pair: Pair<A, B>| firsts.contains(pair.0) && seconds.contains(pair.1))
}

/// Calls `Itertools::cartesian_product` of the crate itertools on the items
/// of the two vectors and collects what it yields. The contract claims what
/// the adaptor's source shows: it yields, for each item of the first
/// iterator in turn, that item (cloned, which for a `Copy` type is the item
/// itself) with each item of the second iterator in turn, and nothing else.
/// Each tuple becomes a `Pair`. The pairs have to fit into one vector.
#[verifier::external_body]
fn pairs_of<A: Copy, B: Copy>(firsts: Vec<A>, seconds: Vec<B>) -> (pairs: Vec<Pair<A, B>>)
    requires
        firsts@.len() * seconds@.len() <= usize::MAX,
    ensures
        pairs@ == product(firsts@, seconds@),
{
    firsts.into_iter().cartesian_product(seconds).map(|(first, second)| Pair(first, second)).collect()
}

/// The place `i * width + j` of a table with rows of width `width` lies in
/// row `i` at column `j`.
proof fn lemma_place(i: int, j: int, height: int, width: int)
    requires
        0 <= i < height,
        0 <= j < width,
    ensures
        0 <= i * width + j < height * width,
        (i * width + j) / width == i,
        (i * width + j) % width == j,
{
    vstd::arithmetic::div_mod::lemma_fundamental_div_mod_converse(i * width + j, width, i, j);
    assert(i * width + j < height * width) by (nonlinear_arith)
        requires
            0 <= i < height,
            0 <= j < width,
    ;
    assert(0 <= i * width + j) by (nonlinear_arith)
        requires
            0 <= i,
            0 <= j,
            0 < width,
    ;
}

/// The place `k` of a table with rows of width `width` lies in a row and a
/// column of the table.
proof fn lemma_row_column(k: int, height: int, width: int)
    requires
        0 <= k < height * width,
        0 <= height,
        0 <= width,
    ensures
        0 < width,
        0 <= k / width < height,
        0 <= k % width < width,
        k == (k / width) * width + k % width,
{
    assert(0 < width) by (nonlinear_arith)
        requires
            0 <= k < height * width,
            0 <= height,
            0 <= width,
    ;
    vstd::arithmetic::div_mod::lemma_fundamental_div_mod(k, width);
    vstd::arithmetic::div_mod::lemma_mod_bound(k, width);
    vstd::arithmetic::div_mod::lemma_div_pos_is_pos(k, width);
    let row = k / width;
    assert(row < height) by (nonlinear_arith)
        requires
            k == width * row + k % width,
            0 <= k % width,
            k < height * width,
            0 < width,
    ;
    assert(width * row == row * width) by (nonlinear_arith);
}

/// The pairs of two lists that list two sets list the pairs of the sets.
pub proof fn lemma_product_enumerates<A, B>(
    firsts: Seq<A>,
    seconds: Seq<B>,
    first_set: Set<A>,
    second_set: Set<B>,
)
    requires
        enumerates(firsts, first_set),
        enumerates(seconds, second_set),
    ensures
        enumerates(product(firsts, seconds), pair_set(first_set, second_set)),
{
    let pairs = product(firsts, seconds);
    let height = firsts.len() as int;
    let width = seconds.len() as int;
    assert forall|x: int, y: int| 0 <= x < pairs.len() && 0 <= y < pairs.len() && x != y implies pairs[x]
        != pairs[y] by {
        lemma_row_column(x, height, width);
        lemma_row_column(y, height, width);
        if pairs[x] == pairs[y] {
            assert(firsts[x / width] == firsts[y / width]);
            assert(seconds[x % width] == seconds[y % width]);
        }
    }
    assert forall|pair: Pair<A, B>| pairs.contains(pair) <==> pair_set(first_set, second_set).contains(
        pair,
    ) by {
        if pairs.contains(pair) {
            let k = choose|k: int| 0 <= k < pairs.len() && pairs[k] == pair;
            lemma_row_column(k, height, width);
            assert(firsts.contains(firsts[k / width]));
            assert(seconds.contains(seconds[k % width]));
        }
        if pair_set(first_set, second_set).contains(pair) {
            assert(firsts.contains(pair.0));
            assert(seconds.contains(pair.1));
            let i = choose|i: int| 0 <= i < firsts.len() && firsts[i] == pair.0;
            let j = choose|j: int| 0 <= j < seconds.len() && seconds[j] == pair.1;
            lemma_place(i, j, height, width);
            assert(pairs[i * width + j] == pair);
        }
    }
}

/// The pairs of two finite sets are finitely many.
pub proof fn lemma_pair_set_finite<A, B>(firsts: Set<A>, seconds: Set<B>)
    requires
        firsts.finite(),
        seconds.finite(),
    ensures
        pair_set(firsts, seconds).finite(),
{
    let a = firsts.to_seq();
    let b = seconds.to_seq();
    firsts.lemma_to_seq_to_set_id();
    seconds.lemma_to_seq_to_set_id();
    let pairs = product(a, b);
    assert(pair_set(firsts, seconds).subset_of(pairs.to_set())) by {
        assert forall|pair: Pair<A, B>| pair_set(firsts, seconds).contains(
            pair,
        ) implies pairs.to_set().contains(pair) by {
            assert(a.to_set().contains(pair.0));
            assert(b.to_set().contains(pair.1));
            let i = choose|i: int| 0 <= i < a.len() && a[i] == pair.0;
            let j = choose|j: int| 0 <= j < b.len() && b[j] == pair.1;
            lemma_place(i, j, a.len() as int, b.len() as int);
            assert(pairs[i * (b.len() as int) + j] == pair);
            assert(pairs.contains(pair));
        }
    }
    vstd::seq_lib::seq_to_set_is_finite(pairs);
    vstd::set_lib::lemma_set_subset_finite(pairs.to_set(), pair_set(firsts, seconds));
}

/// A table that is no higher and no wider than another has no more places.
proof fn lemma_smaller_table(a: nat, b: nat, height: nat, width: nat)
    requires
        a <= height,
        b <= width,
    ensures
        a * b <= height * width,
{
    assert(a * b <= height * width) by (nonlinear_arith)
        requires
            a <= height,
            b <= width,
    ;
}

/// The tensor product of two graphs: its vertices are the pairs of a vertex
/// of each, its edges the pairs of an edge of each, and an edge leads from
/// the pair of the tails to the pair of the heads.
impl<G0: Digraph, G1: Digraph> Digraph for (G0, G1) {
    type Vert = Pair<G0::Vert, G1::Vert>;

    type Edge = Pair<G0::Edge, G1::Edge>;

    /// Both factors are as they should be, and the pairs of their vertices
    /// and of their edges can be counted by a `usize`.
    open spec fn wf(&self) -> bool {
        &&& self.0.wf()
        &&& self.1.wf()
        &&& self.0.vert_set().len() * self.1.vert_set().len() <= usize::MAX
        &&& self.0.edge_set().len() * self.1.edge_set().len() <= usize::MAX
    }

    open spec fn lists_verts(&self, all: Seq<Self::Vert>) -> bool {
        exists|firsts: Seq<G0::Vert>, seconds: Seq<G1::Vert>|
            self.0.lists_verts(firsts) && self.1.lists_verts(seconds) && all == #[trigger] product(
                firsts,
                seconds,
            )
    }

    open spec fn lists_edges(&self, all: Seq<Self::Edge>) -> bool {
        exists|firsts: Seq<G0::Edge>, seconds: Seq<G1::Edge>|
            self.0.lists_edges(firsts) && self.1.lists_edges(seconds) && all == #[trigger] product(
                firsts,
                seconds,
            )
    }

    open spec fn vert_set(&self) -> Set<Self::Vert> {
        pair_set(self.0.vert_set(), self.1.vert_set())
    }

    open spec fn edge_set(&self) -> Set<Self::Edge> {
        pair_set(self.0.edge_set(), self.1.edge_set())
    }

    open spec fn endpoints_spec(&self, e: Self::Edge) -> (Self::Vert, Self::Vert) {
        (
            Pair(self.0.endpoints_spec(e.0).0, self.1.endpoints_spec(e.1).0),
            Pair(self.0.endpoints_spec(e.0).1, self.1.endpoints_spec(e.1).1),
        )
    }

    proof fn lemma_finite(&self) {
        self.0.lemma_finite();
        self.1.lemma_finite();
        lemma_pair_set_finite(self.0.vert_set(), self.1.vert_set());
        lemma_pair_set_finite(self.0.edge_set(), self.1.edge_set());
    }

    proof fn lemma_endpoints_are_verts(&self, e: Self::Edge) {
        self.0.lemma_endpoints_are_verts(e.0);
        self.1.lemma_endpoints_are_verts(e.1);
    }

    fn same_vert(a: Self::Vert, b: Self::Vert) -> (same: bool) {
        G0::same_vert(a.0, b.0) && G1::same_vert(a.1, b.1)
    }

    fn same_edge(a: Self::Edge, b: Self::Edge) -> (same: bool) {
        G0::same_edge(a.0, b.0) && G1::same_edge(a.1, b.1)
    }

    fn endpoints(&self, e: Self::Edge) -> (ends: (Self::Vert, Self::Vert)) {
        let (t0, h0) = self.0.endpoints(e.0);
        let (t1, h1) = self.1.endpoints(e.1);
        (Pair(t0, t1), Pair(h0, h1))
    }

    fn tail(&self, e: Self::Edge) -> (v: Self::Vert) {
        Pair(self.0.tail(e.0), self.1.tail(e.1))
    }

    fn head(&self, e: Self::Edge) -> (v: Self::Vert) {
        Pair(self.0.head(e.0), self.1.head(e.1))
    }

    fn verts(&self) -> (all: Vec<Self::Vert>) {
        let firsts = self.0.verts();
        let seconds = self.1.verts();
        proof {
            self.0.lemma_finite();
            self.1.lemma_finite();
            lemma_enumerated_len(firsts@, self.0.vert_set());
            lemma_enumerated_len(seconds@, self.1.vert_set());
            lemma_product_enumerates(firsts@, seconds@, self.0.vert_set(), self.1.vert_set());
        }
        pairs_of(firsts, seconds)
    }

    fn edges(&self) -> (all: Vec<Self::Edge>) {
        let firsts = self.0.edges();
        let seconds = self.1.edges();
        proof {
            self.0.lemma_finite();
            self.1.lemma_finite();
            lemma_enumerated_len(firsts@, self.0.edge_set());
            lemma_enumerated_len(seconds@, self.1.edge_set());
            lemma_product_enumerates(firsts@, seconds@, self.0.edge_set(), self.1.edge_set());
        }
        pairs_of(firsts, seconds)
    }
}

impl<G0: OutGraph, G1: OutGraph> OutGraph for (G0, G1) {
    open spec fn lists_out_edges(&self, v: Self::Vert, all: Seq<Self::Edge>) -> bool {
        exists|firsts: Seq<G0::Edge>, seconds: Seq<G1::Edge>|
            self.0.lists_out_edges(v.0, firsts) && self.1.lists_out_edges(v.1, seconds) && all
                == #[trigger] product(firsts, seconds)
    }

    fn out_edges(&self, v: Self::Vert) -> (all: Vec<Self::Edge>) {
        let firsts = self.0.out_edges(v.0);
        let seconds = self.1.out_edges(v.1);
        proof {
            self.0.lemma_finite();
            self.1.lemma_finite();
            assert forall|i: int| 0 <= i < firsts@.len() implies self.0.edge_set().contains(
                #[trigger] firsts@[i],
            ) by {
                assert(firsts@.contains(firsts@[i]));
                assert(out_edge_set(&self.0, v.0).contains(firsts@[i]));
            }
            assert forall|i: int| 0 <= i < seconds@.len() implies self.1.edge_set().contains(
                #[trigger] seconds@[i],
            ) by {
                assert(seconds@.contains(seconds@[i]));
                assert(out_edge_set(&self.1, v.1).contains(seconds@[i]));
            }
            lemma_seq_within_set(firsts@, self.0.edge_set());
            lemma_seq_within_set(seconds@, self.1.edge_set());
            lemma_smaller_table(
                firsts@.len(),
                seconds@.len(),
                self.0.edge_set().len(),
                self.1.edge_set().len(),
            );
            lemma_product_enumerates(
                firsts@,
                seconds@,
                out_edge_set(&self.0, v.0),
                out_edge_set(&self.1, v.1),
            );
            assert(pair_set(out_edge_set(&self.0, v.0), out_edge_set(&self.1, v.1))
                =~= out_edge_set(self, v));
        }
        pairs_of(firsts, seconds)
    }
}

impl<G0: InGraph, G1: InGraph> InGraph for (G0, G1) {
    open spec fn lists_in_edges(&self, v: Self::Vert, all: Seq<Self::Edge>) -> bool {
        exists|firsts: Seq<G0::Edge>, seconds: Seq<G1::Edge>|
            self.0.lists_in_edges(v.0, firsts) && self.1.lists_in_edges(v.1, seconds) && all
                == #[trigger] product(firsts, seconds)
    }

    fn in_edges(&self, v: Self::Vert) -> (all: Vec<Self::Edge>) {
        let firsts = self.0.in_edges(v.0);
        let seconds = self.1.in_edges(v.1);
        proof {
            self.0.lemma_finite();
            self.1.lemma_finite();
            assert forall|i: int| 0 <= i < firsts@.len() implies self.0.edge_set().contains(
                #[trigger] firsts@[i],
            ) by {
                assert(firsts@.contains(firsts@[i]));
                assert(in_edge_set(&self.0, v.0).contains(firsts@[i]));
            }
            assert forall|i: int| 0 <= i < seconds@.len() implies self.1.edge_set().contains(
                #[trigger] seconds@[i],
            ) by {
                assert(seconds@.contains(seconds@[i]));
                assert(in_edge_set(&self.1, v.1).contains(seconds@[i]));
            }
            lemma_seq_within_set(firsts@, self.0.edge_set());
            lemma_seq_within_set(seconds@, self.1.edge_set());
            lemma_smaller_table(
                firsts@.len(),
                seconds@.len(),
                self.0.edge_set().len(),
                self.1.edge_set().len(),
            );
            lemma_product_enumerates(
                firsts@,
                seconds@,
                in_edge_set(&self.0, v.0),
                in_edge_set(&self.1, v.1),
            );
            assert(pair_set(in_edge_set(&self.0, v.0), in_edge_set(&self.1, v.1)) =~= in_edge_set(
                self,
                v,
            ));
        }
        pairs_of(firsts, seconds)
    }
}

} // verus!
