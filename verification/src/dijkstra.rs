//! Shortest paths from one vertex, by Dijkstra's algorithm.

use vstd::prelude::*;
use crate::adjacencies::Adjacencies;
use crate::binary_heap::{is_least_entry, offer_changes, BinaryHeap};
use crate::digraph::{Digraph, VertMaps};
use crate::map::{MapGet, MapMut};
use crate::model::index::Index;
use crate::priority::{Distance, Priority};

verus! {

/// Whether no cost makes a distance shorter: every distance ranks no higher
/// than what it becomes by the cost of any edge of `g`.
pub open spec fn costs_lengthen<G: Digraph, C, D: Distance<C>, M: MapGet<G::Edge, Value = C>>(
    g: &G,
    costs: &M,
) -> bool {
    forall|d: D, e: G::Edge|
        g.edge_set().contains(e) ==> d.at_most_spec(&#[trigger] d.plus_spec(costs.at(e)))
}

/// Whether the edges `path` of `g` lead from `start` to `end`, each beginning
/// where the one before it ends.
pub open spec fn is_walk<G: Digraph, A: Adjacencies<G>>(
    g: &G,
    start: G::Vert,
    end: G::Vert,
    path: Seq<G::Edge>,
) -> bool {
    &&& forall|i: int| 0 <= i < path.len() ==> g.edge_set().contains(#[trigger] path[i])
    &&& if path.len() == 0 {
        start == end
    } else {
        &&& A::from_spec(g, path[0]) == start
        &&& A::to_spec(g, path.last()) == end
        &&& forall|i: int|
            0 <= i < path.len() - 1 ==> A::to_spec(g, #[trigger] path[i]) == A::from_spec(
                g,
                path[i + 1],
            )
    }
}

/// Whether `end` can be reached from `start` along edges of `g`.
pub open spec fn reachable<G: Digraph, A: Adjacencies<G>>(
    g: &G,
    start: G::Vert,
    end: G::Vert,
) -> bool {
    exists|path: Seq<G::Edge>| is_walk::<G, A>(g, start, end, path)
}

/// What can be reached can be left by one more edge.
pub proof fn lemma_reachable_step<G: Digraph, A: Adjacencies<G>>(
    g: &G,
    start: G::Vert,
    e: G::Edge,
)
    requires
        g.edge_set().contains(e),
        reachable::<G, A>(g, start, A::from_spec(g, e)),
    ensures
        reachable::<G, A>(g, start, A::to_spec(g, e)),
{
    let path = choose|path: Seq<G::Edge>| is_walk::<G, A>(g, start, A::from_spec(g, e), path);
    let longer = path.push(e);
    assert forall|i: int| 0 <= i < longer.len() - 1 implies A::to_spec(g, #[trigger] longer[i])
        == A::from_spec(g, longer[i + 1]) by {
        if i < path.len() - 1 {
            assert(longer[i] == path[i]);
            assert(longer[i + 1] == path[i + 1]);
        } else {
            assert(longer[i] == path.last());
        }
    }
    if path.len() > 0 {
        assert(longer[0] == path[0]);
    }
    assert(is_walk::<G, A>(g, start, A::to_spec(g, e), longer));
}

/// The distance at the end of the walk `path` from a vertex with the
/// distance `zero`: `zero` and the costs of the edges of the walk, one after
/// the other.
pub open spec fn walk_cost<E, C, D: Distance<C>, M: MapGet<E, Value = C>>(
    costs: &M,
    zero: D,
    path: Seq<E>,
) -> D
    decreases path.len(),
{
    if path.len() == 0 {
        zero
    } else {
        walk_cost(costs, zero, path.drop_last()).plus_spec(costs.at(path.last()))
    }
}

/// Whether some walk from `v0` to `v` has the distance `x` at its end.
pub open spec fn realised<
    G: Digraph,
    A: Adjacencies<G>,
    C,
    D: Distance<C>,
    M: MapGet<G::Edge, Value = C>,
>(g: &G, costs: &M, v0: G::Vert, zero: D, v: G::Vert, x: D) -> bool {
    exists|path: Seq<G::Edge>|
        is_walk::<G, A>(g, v0, v, path) && x == walk_cost::<G::Edge, C, D, M>(costs, zero, path)
}

/// The walk that `path` and then `e` make, where `path` ends at the vertex
/// that `e` comes from.
pub proof fn lemma_walk_extends<G: Digraph, A: Adjacencies<G>>(
    g: &G,
    start: G::Vert,
    path: Seq<G::Edge>,
    e: G::Edge,
)
    requires
        g.edge_set().contains(e),
        is_walk::<G, A>(g, start, A::from_spec(g, e), path),
    ensures
        is_walk::<G, A>(g, start, A::to_spec(g, e), path.push(e)),
        path.push(e).drop_last() == path,
        path.push(e).last() == e,
{
    let longer = path.push(e);
    assert forall|i: int| 0 <= i < longer.len() - 1 implies A::to_spec(g, #[trigger] longer[i])
        == A::from_spec(g, longer[i + 1]) by {
        if i < path.len() - 1 {
            assert(longer[i] == path[i]);
            assert(longer[i + 1] == path[i + 1]);
        } else {
            assert(longer[i] == path.last());
        }
    }
    if path.len() > 0 {
        assert(longer[0] == path[0]);
    }
    assert(longer.drop_last() =~= path);
}

/// A distance that a walk has at its end gives, with the cost of one more
/// edge, the distance that a walk has at the end of that edge.
pub proof fn lemma_realised_step<
    G: Digraph,
    A: Adjacencies<G>,
    C,
    D: Distance<C>,
    M: MapGet<G::Edge, Value = C>,
>(g: &G, costs: &M, v0: G::Vert, zero: D, e: G::Edge, x: D)
    requires
        g.edge_set().contains(e),
        realised::<G, A, C, D, M>(g, costs, v0, zero, A::from_spec(g, e), x),
    ensures
        realised::<G, A, C, D, M>(
            g,
            costs,
            v0,
            zero,
            A::to_spec(g, e),
            x.plus_spec(costs.at(e)),
        ),
{
    let path = choose|path: Seq<G::Edge>|
        is_walk::<G, A>(g, v0, A::from_spec(g, e), path) && x == walk_cost::<G::Edge, C, D, M>(
            costs,
            zero,
            path,
        );
    lemma_walk_extends::<G, A>(g, v0, path, e);
    let longer = path.push(e);
    assert(walk_cost::<G::Edge, C, D, M>(costs, zero, longer) == x.plus_spec(costs.at(e)));
    assert(is_walk::<G, A>(g, v0, A::to_spec(g, e), longer) && x.plus_spec(costs.at(e))
        == walk_cost::<G::Edge, C, D, M>(costs, zero, longer));
}

/// The start has the distance `zero` by the walk without edges.
pub proof fn lemma_realised_start<
    G: Digraph,
    A: Adjacencies<G>,
    C,
    D: Distance<C>,
    M: MapGet<G::Edge, Value = C>,
>(g: &G, costs: &M, v0: G::Vert, zero: D)
    ensures
        realised::<G, A, C, D, M>(g, costs, v0, zero, v0, zero),
{
    let path = Seq::<G::Edge>::empty();
    assert(is_walk::<G, A>(g, v0, v0, path) && zero == walk_cost::<G::Edge, C, D, M>(
        costs,
        zero,
        path,
    ));
}

/// A walk with an edge is a walk to where its last edge comes from, and that
/// edge.
pub proof fn lemma_walk_prefix<G: Digraph, A: Adjacencies<G>>(
    g: &G,
    start: G::Vert,
    end: G::Vert,
    path: Seq<G::Edge>,
)
    requires
        is_walk::<G, A>(g, start, end, path),
        path.len() > 0,
    ensures
        g.edge_set().contains(path.last()),
        A::to_spec(g, path.last()) == end,
        is_walk::<G, A>(g, start, A::from_spec(g, path.last()), path.drop_last()),
{
    let last = path.last();
    let shorter = path.drop_last();
    assert(g.edge_set().contains(path[path.len() - 1]));
    assert forall|i: int| 0 <= i < shorter.len() implies g.edge_set().contains(
        #[trigger] shorter[i],
    ) by {
        assert(shorter[i] == path[i]);
    }
    if shorter.len() > 0 {
        assert(shorter[0] == path[0]);
        assert(shorter.last() == path[path.len() - 2]);
        assert(A::to_spec(g, path[path.len() - 2]) == A::from_spec(g, path[path.len() - 2 + 1]));
        assert forall|i: int| 0 <= i < shorter.len() - 1 implies A::to_spec(
            g,
            #[trigger] shorter[i],
        ) == A::from_spec(g, shorter[i + 1]) by {
            assert(shorter[i] == path[i]);
            assert(shorter[i + 1] == path[i + 1]);
        }
    }
}

/// Where the start has a distance, and every edge from a vertex with a
/// distance leads to a vertex with a distance, every vertex at the end of a
/// walk from the start has a distance.
pub proof fn lemma_walk_is_covered<
    G: Digraph,
    A: Adjacencies<G>,
    T,
    R: MapGet<G::Vert, Value = Option<T>>,
>(g: &G, distances: &R, start: G::Vert, end: G::Vert, path: Seq<G::Edge>)
    requires
        distances.at(start) is Some,
        forall|e: G::Edge|
            g.edge_set().contains(e) && (#[trigger] distances.at(A::from_spec(g, e))) is Some
                ==> distances.at(A::to_spec(g, e)) is Some,
        is_walk::<G, A>(g, start, end, path),
    ensures
        distances.at(end) is Some,
    decreases path.len(),
{
    if path.len() > 0 {
        let last = path.last();
        let shorter = path.drop_last();
        lemma_walk_prefix::<G, A>(g, start, end, path);
        lemma_walk_is_covered::<G, A, T, R>(g, distances, start, A::from_spec(g, last), shorter);
        assert(distances.at(A::from_spec(g, last)) is Some);
    }
}

/// Every vertex is reached from itself.
pub proof fn lemma_reachable_self<G: Digraph, A: Adjacencies<G>>(g: &G, start: G::Vert)
    ensures
        reachable::<G, A>(g, start, start),
{
    assert(is_walk::<G, A>(g, start, start, Seq::<G::Edge>::empty()));
}

/// Whether the distance `x` of `v` comes from the start: `v` is the start
/// `v0` and `x` is `zero`, or an edge leads to `v` from a vertex with a
/// distance, and `x` is that distance and the cost of the edge.
pub open spec fn derived<
    G: Digraph,
    A: Adjacencies<G>,
    C,
    D: Distance<C>,
    M: MapGet<G::Edge, Value = C>,
    R: MapGet<G::Vert, Value = Option<D>>,
>(g: &G, costs: &M, distances: &R, v0: G::Vert, zero: D, v: G::Vert, x: D) -> bool {
    ||| v == v0 && x == zero
    ||| exists|e: G::Edge|
        {
            &&& g.edge_set().contains(e)
            &&& A::to_spec(g, e) == v
            &&& (#[trigger] distances.at(A::from_spec(g, e))) is Some
            &&& x == distances.at(A::from_spec(g, e)).unwrap().plus_spec(costs.at(e))
        }
}

/// Whether the distances `distances` are what a search from `v0` leaves: the
/// start has the distance `zero`; only vertices of the graph have a
/// distance, namely those that can be reached from the start, and it is the
/// distance at the end of some walk from the start, along which the
/// distances follow from each other; an edge from
/// a vertex with a distance leads to a vertex with a distance that ranks no higher than the first and the cost of the edge;
/// and the distance of every other vertex is that of a vertex before it and
/// the cost of the edge between them.
pub open spec fn shortest<
    G: Digraph,
    A: Adjacencies<G>,
    C,
    D: Distance<C>,
    M: MapGet<G::Edge, Value = C>,
    R: MapGet<G::Vert, Value = Option<D>>,
>(g: &G, costs: &M, distances: &R, v0: G::Vert, zero: D) -> bool {
    &&& distances.at(v0) == Some(zero)
    &&& forall|v: G::Vert| (#[trigger] distances.at(v)) is Some ==> g.vert_set().contains(v)
    &&& forall|v: G::Vert| (#[trigger] distances.at(v)) is Some <==> reachable::<G, A>(g, v0, v)
    &&& forall|v: G::Vert|
        (#[trigger] distances.at(v)) is Some ==> realised::<G, A, C, D, M>(
            g,
            costs,
            v0,
            zero,
            v,
            distances.at(v).unwrap(),
        )
    &&& forall|v: G::Vert|
        (#[trigger] distances.at(v)) is Some ==> traced::<G, A, C, D, M, R>(
            g,
            costs,
            distances,
            v0,
            zero,
            v,
        )
    &&& forall|e: G::Edge|
        g.edge_set().contains(e) && (#[trigger] distances.at(A::from_spec(g, e))) is Some ==> {
            &&& distances.at(A::to_spec(g, e)) is Some
            &&& distances.at(A::to_spec(g, e)).unwrap().at_most_spec(
                &distances.at(A::from_spec(g, e)).unwrap().plus_spec(costs.at(e)),
            )
        }
    &&& forall|v: G::Vert|
        (#[trigger] distances.at(v)) is Some ==> derived::<G, A, C, D, M, R>(
            g,
            costs,
            distances,
            v0,
            zero,
            v,
            distances.at(v).unwrap(),
        )
}

/// Whether the walk `path` from `v0` to `v` shows how the distance of `v`
/// came about: the start has the distance `zero`, and along the walk the
/// distance of the vertex that an edge leads to is the distance of the
/// vertex that it comes from and the cost of the edge.
pub open spec fn is_trace<
    G: Digraph,
    A: Adjacencies<G>,
    C,
    D: Distance<C>,
    M: MapGet<G::Edge, Value = C>,
    R: MapGet<G::Vert, Value = Option<D>>,
>(g: &G, costs: &M, distances: &R, v0: G::Vert, zero: D, v: G::Vert, path: Seq<G::Edge>) -> bool {
    &&& is_walk::<G, A>(g, v0, v, path)
    &&& distances.at(v0) == Some(zero)
    &&& forall|i: int|
        0 <= i < path.len() ==> {
            &&& distances.at(A::from_spec(g, #[trigger] path[i])) is Some
            &&& distances.at(A::to_spec(g, path[i])) == Some(
                distances.at(A::from_spec(g, path[i])).unwrap().plus_spec(costs.at(path[i])),
            )
        }
}

/// Whether the distance of `v` can be traced back to the start.
pub open spec fn traced<
    G: Digraph,
    A: Adjacencies<G>,
    C,
    D: Distance<C>,
    M: MapGet<G::Edge, Value = C>,
    R: MapGet<G::Vert, Value = Option<D>>,
>(g: &G, costs: &M, distances: &R, v0: G::Vert, zero: D, v: G::Vert) -> bool {
    exists|path: Seq<G::Edge>| is_trace::<G, A, C, D, M, R>(g, costs, distances, v0, zero, v, path)
}

/// A distance that can be traced back still can once more vertices have a
/// distance.
pub proof fn lemma_traced_stays<
    G: Digraph,
    A: Adjacencies<G>,
    C,
    D: Distance<C>,
    M: MapGet<G::Edge, Value = C>,
    R: MapGet<G::Vert, Value = Option<D>>,
>(g: &G, costs: &M, before: &R, after: &R, v0: G::Vert, zero: D, v: G::Vert)
    requires
        traced::<G, A, C, D, M, R>(g, costs, before, v0, zero, v),
        forall|w: G::Vert| (#[trigger] before.at(w)) is Some ==> after.at(w) == before.at(w),
    ensures
        traced::<G, A, C, D, M, R>(g, costs, after, v0, zero, v),
{
    let path = choose|path: Seq<G::Edge>|
        is_trace::<G, A, C, D, M, R>(g, costs, before, v0, zero, v, path);
    assert forall|i: int| 0 <= i < path.len() implies {
        &&& after.at(A::from_spec(g, #[trigger] path[i])) is Some
        &&& after.at(A::to_spec(g, path[i])) == Some(
            after.at(A::from_spec(g, path[i])).unwrap().plus_spec(costs.at(path[i])),
        )
    } by {
        assert(before.at(A::from_spec(g, path[i])) is Some);
        assert(before.at(A::to_spec(g, path[i])) is Some);
    }
    assert(before.at(v0) is Some);
    assert(is_trace::<G, A, C, D, M, R>(g, costs, after, v0, zero, v, path));
}

/// Where the distance of the vertex that an edge comes from can be traced
/// back, and the vertex that it leads to has that distance and the cost of
/// the edge, the distance of that vertex can be traced back too.
pub proof fn lemma_traced_step<
    G: Digraph,
    A: Adjacencies<G>,
    C,
    D: Distance<C>,
    M: MapGet<G::Edge, Value = C>,
    R: MapGet<G::Vert, Value = Option<D>>,
>(g: &G, costs: &M, distances: &R, v0: G::Vert, zero: D, e: G::Edge)
    requires
        g.edge_set().contains(e),
        traced::<G, A, C, D, M, R>(g, costs, distances, v0, zero, A::from_spec(g, e)),
        distances.at(A::from_spec(g, e)) is Some,
        distances.at(A::to_spec(g, e)) == Some(
            distances.at(A::from_spec(g, e)).unwrap().plus_spec(costs.at(e)),
        ),
    ensures
        traced::<G, A, C, D, M, R>(g, costs, distances, v0, zero, A::to_spec(g, e)),
{
    let path = choose|path: Seq<G::Edge>|
        is_trace::<G, A, C, D, M, R>(g, costs, distances, v0, zero, A::from_spec(g, e), path);
    lemma_walk_extends::<G, A>(g, v0, path, e);
    let longer = path.push(e);
    assert forall|i: int| 0 <= i < longer.len() implies {
        &&& distances.at(A::from_spec(g, #[trigger] longer[i])) is Some
        &&& distances.at(A::to_spec(g, longer[i])) == Some(
            distances.at(A::from_spec(g, longer[i])).unwrap().plus_spec(costs.at(longer[i])),
        )
    } by {
        if i < path.len() {
            assert(longer[i] == path[i]);
        }
    }
    assert(is_trace::<G, A, C, D, M, R>(g, costs, distances, v0, zero, A::to_spec(g, e), longer));
}

/// Whether the edge `e` is settled: if the vertex that it comes from has a
/// distance, then the vertex that it leads to has a distance, or waits with
/// one, that ranks no higher than the first and the cost of the edge.
pub open spec fn settled<
    G: Digraph,
    A: Adjacencies<G>,
    C,
    D: Distance<C>,
    M: MapGet<G::Edge, Value = C>,
    R: MapGet<G::Vert, Value = Option<D>>,
>(g: &G, costs: &M, distances: &R, waiting: Map<G::Vert, D>, e: G::Edge) -> bool {
    let from = A::from_spec(g, e);
    let to = A::to_spec(g, e);
    distances.at(from) is Some ==> {
        let reach = distances.at(from).unwrap().plus_spec(costs.at(e));
        ||| distances.at(to) is Some && distances.at(to).unwrap().at_most_spec(&reach)
        ||| waiting.contains_key(to) && waiting[to].at_most_spec(&reach)
    }
}

/// What holds during a search: the vertices with a distance and the waiting
/// ones are vertices of the graph and apart; no distance ranks higher than
/// what a waiting vertex waits with; and every distance, final or waiting,
/// comes from the start.
pub open spec fn searching<
    G: Digraph,
    A: Adjacencies<G>,
    C,
    D: Distance<C>,
    M: MapGet<G::Edge, Value = C>,
    R: MapGet<G::Vert, Value = Option<D>>,
>(g: &G, costs: &M, distances: &R, waiting: Map<G::Vert, D>, v0: G::Vert, zero: D) -> bool {
    &&& forall|v: G::Vert|
        (#[trigger] distances.at(v)) is Some ==> g.vert_set().contains(v)
            && !waiting.contains_key(v)
    &&& forall|u: G::Vert| #[trigger] waiting.contains_key(u) ==> g.vert_set().contains(u)
    &&& forall|v: G::Vert, u: G::Vert|
        (#[trigger] distances.at(v)) is Some && #[trigger] waiting.contains_key(u)
            ==> distances.at(v).unwrap().at_most_spec(&waiting[u])
    &&& forall|v: G::Vert|
        (#[trigger] distances.at(v)) is Some ==> derived::<G, A, C, D, M, R>(
            g,
            costs,
            distances,
            v0,
            zero,
            v,
            distances.at(v).unwrap(),
        )
    &&& forall|u: G::Vert|
        #[trigger] waiting.contains_key(u) ==> derived::<G, A, C, D, M, R>(
            g,
            costs,
            distances,
            v0,
            zero,
            u,
            waiting[u],
        )
    &&& distances.at(v0) is Some ==> distances.at(v0) == Some(zero)
    &&& distances.at(v0) is None ==> waiting == Map::<G::Vert, D>::empty().insert(v0, zero)
    &&& forall|v: G::Vert| (#[trigger] distances.at(v)) is Some ==> reachable::<G, A>(g, v0, v)
    &&& forall|u: G::Vert| #[trigger] waiting.contains_key(u) ==> reachable::<G, A>(g, v0, u)
    &&& forall|v: G::Vert|
        (#[trigger] distances.at(v)) is Some ==> realised::<G, A, C, D, M>(
            g,
            costs,
            v0,
            zero,
            v,
            distances.at(v).unwrap(),
        )
    &&& forall|u: G::Vert|
        #[trigger] waiting.contains_key(u) ==> realised::<G, A, C, D, M>(
            g,
            costs,
            v0,
            zero,
            u,
            waiting[u],
        )
    &&& forall|v: G::Vert|
        (#[trigger] distances.at(v)) is Some ==> traced::<G, A, C, D, M, R>(
            g,
            costs,
            distances,
            v0,
            zero,
            v,
        )
}

/// A distance that comes from the start still does so once one more vertex
/// has a distance.
pub proof fn lemma_derived_stays<
    G: Digraph,
    A: Adjacencies<G>,
    C,
    D: Distance<C>,
    M: MapGet<G::Edge, Value = C>,
    R: MapGet<G::Vert, Value = Option<D>>,
>(g: &G, costs: &M, before: &R, after: &R, v0: G::Vert, zero: D, v: G::Vert, x: D)
    requires
        derived::<G, A, C, D, M, R>(g, costs, before, v0, zero, v, x),
        forall|w: G::Vert| (#[trigger] before.at(w)) is Some ==> after.at(w) == before.at(w),
    ensures
        derived::<G, A, C, D, M, R>(g, costs, after, v0, zero, v, x),
{
    if !(v == v0 && x == zero) {
        let e = choose|e: G::Edge|
            {
                &&& g.edge_set().contains(e)
                &&& A::to_spec(g, e) == v
                &&& (#[trigger] before.at(A::from_spec(g, e))) is Some
                &&& x == before.at(A::from_spec(g, e)).unwrap().plus_spec(costs.at(e))
            };
        assert(after.at(A::from_spec(g, e)) is Some);
    }
}

/// Offers to every vertex to which an edge leads from `v`, and which has no
/// distance yet, the distance `d` of `v` and the cost of the edge.
fn relax<G, A, C, D, M, R, Q>(
    g: &G,
    costs: &M,
    queue: &mut BinaryHeap<G::Vert, D, Q>,
    distances: &R,
    v: G::Vert,
    d: D,
    Ghost(v0): Ghost<G::Vert>,
    Ghost(zero): Ghost<D>,
) where
    G: Digraph,
    A: Adjacencies<G>,
    C: Copy,
    D: Distance<C>,
    M: MapGet<G::Edge, Value = C>,
    R: MapGet<G::Vert, Value = Option<D>>,
    Q: MapMut<G::Vert, Value = Option<Index>>,

    requires
        g.wf(),
        g.vert_set().finite(),
        g.vert_set().len() <= Index::limit(),
        forall|e: G::Edge| g.edge_set().contains(e) ==> costs.defined(e),
        forall|w: G::Vert| distances.defined(w),
        costs_lengthen::<G, C, D, M>(g, costs),
        old(queue).wf(),
        searching::<G, A, C, D, M, R>(g, costs, distances, old(queue)@, v0, zero),
        distances.at(v0) is Some,
        distances.at(v) == Some(d),
        forall|w: G::Vert|
            (#[trigger] distances.at(w)) is Some ==> distances.at(w).unwrap().at_most_spec(&d),
        forall|e: G::Edge|
            g.edge_set().contains(e) && A::from_spec(g, e) != v ==> #[trigger] settled::<
                G,
                A,
                C,
                D,
                M,
                R,
            >(g, costs, distances, old(queue)@, e),
    ensures
        final(queue).wf(),
        searching::<G, A, C, D, M, R>(g, costs, distances, final(queue)@, v0, zero),
        forall|e: G::Edge|
            g.edge_set().contains(e) ==> #[trigger] settled::<G, A, C, D, M, R>(
                g,
                costs,
                distances,
                final(queue)@,
                e,
            ),
{
    let adjacent = A::of(g, v);
    let mut i: usize = 0;
    while i < adjacent.len()
        invariant
            i <= adjacent@.len(),
            g.wf(),
            g.vert_set().finite(),
            g.vert_set().len() <= Index::limit(),
            forall|e: G::Edge| g.edge_set().contains(e) ==> costs.defined(e),
            forall|w: G::Vert| distances.defined(w),
            costs_lengthen::<G, C, D, M>(g, costs),
            queue.wf(),
            searching::<G, A, C, D, M, R>(g, costs, distances, queue@, v0, zero),
            distances.at(v0) is Some,
            distances.at(v) == Some(d),
            forall|w: G::Vert|
                (#[trigger] distances.at(w)) is Some ==> distances.at(w).unwrap().at_most_spec(
                    &d,
                ),
            adjacent@.no_duplicates(),
            forall|e: G::Edge|
                #![trigger adjacent@.contains(e)]
                adjacent@.contains(e) <==> g.edge_set().contains(e) && A::from_spec(g, e) == v,
            forall|e: G::Edge|
                g.edge_set().contains(e) && A::from_spec(g, e) != v ==> #[trigger] settled::<
                    G,
                    A,
                    C,
                    D,
                    M,
                    R,
                >(g, costs, distances, queue@, e),
            forall|j: int|
                0 <= j < i ==> settled::<G, A, C, D, M, R>(
                    g,
                    costs,
                    distances,
                    queue@,
                    #[trigger] adjacent@[j],
                ),
        decreases adjacent@.len() - i,
    {
        let e = adjacent[i];
        proof {
            assert(adjacent@.contains(e));
            A::lemma_ends_are_verts(g, e);
        }
        let u = A::to(g, e);
        let known: Option<D> = *distances.get(u);
        let ghost waiting = queue@;
        match known {
            Some(reached) => {
                proof {
                    D::lemma_transitive(&reached, &d, &d.plus_spec(costs.at(e)));
                }
            },
            None => {
                let cost: C = *costs.get(e);
                let beyond = d.plus(cost);
                proof {
                    if !waiting.contains_key(u) {
                        queue.lemma_len();
                        let more = waiting.dom().insert(u);
                        assert(more.subset_of(g.vert_set()));
                        vstd::set_lib::lemma_len_subset(more, g.vert_set());
                    }
                }
                queue.try_decrease(u, beyond);
                proof {
                    let now = queue@;
                    lemma_reachable_step::<G, A>(g, v0, e);
                    lemma_realised_step::<G, A, C, D, M>(g, costs, v0, zero, e, d);
                    assert forall|k: G::Vert| #[trigger] now.contains_key(k) implies realised::<
                        G,
                        A,
                        C,
                        D,
                        M,
                    >(g, costs, v0, zero, k, now[k]) by {
                        if !(k == u && offer_changes(waiting, u, beyond)) {
                            assert(waiting.contains_key(k));
                        }
                    }
                    D::lemma_total(&beyond, &beyond);
                    if waiting.contains_key(u) {
                        D::lemma_total(&waiting[u], &beyond);
                    }
                    assert(now.contains_key(u) && now[u].at_most_spec(&beyond));
                    assert forall|k: G::Vert| waiting.contains_key(k) implies now.contains_key(k)
                        && now[k].at_most_spec(&waiting[k]) by {
                        D::lemma_total(&waiting[k], &waiting[k]);
                    }
                    assert forall|w: G::Vert, k: G::Vert|
                        (#[trigger] distances.at(w)) is Some && #[trigger] now.contains_key(
                            k,
                        ) implies distances.at(w).unwrap().at_most_spec(&now[k]) by {
                        if k == u && offer_changes(waiting, u, beyond) {
                            D::lemma_transitive(&distances.at(w).unwrap(), &d, &beyond);
                        }
                    }
                    assert forall|k: G::Vert| #[trigger] now.contains_key(k) implies derived::<
                        G,
                        A,
                        C,
                        D,
                        M,
                        R,
                    >(g, costs, distances, v0, zero, k, now[k]) by {
                        if k == u && offer_changes(waiting, u, beyond) {
                            assert(distances.at(A::from_spec(g, e)) is Some);
                        } else {
                            assert(waiting.contains_key(k));
                        }
                    }
                    assert forall|f: G::Edge|
                        settled::<G, A, C, D, M, R>(
                            g,
                            costs,
                            distances,
                            waiting,
                            f,
                        ) implies settled::<G, A, C, D, M, R>(g, costs, distances, now, f) by {
                        let to = A::to_spec(g, f);
                        if distances.at(A::from_spec(g, f)) is Some {
                            let reach = distances.at(A::from_spec(g, f)).unwrap().plus_spec(
                                costs.at(f),
                            );
                            if !(distances.at(to) is Some && distances.at(
                                to,
                            ).unwrap().at_most_spec(&reach)) {
                                D::lemma_transitive(&now[to], &waiting[to], &reach);
                            }
                        }
                    }
                }
            },
        }
        i += 1;
    }
    proof {
        assert forall|e: G::Edge| g.edge_set().contains(e) implies #[trigger] settled::<
            G,
            A,
            C,
            D,
            M,
            R,
        >(g, costs, distances, queue@, e) by {
            if A::from_spec(g, e) == v {
                assert(adjacent@.contains(e));
                let j = choose|j: int| 0 <= j < adjacent@.len() && adjacent@[j] == e;
                assert(settled::<G, A, C, D, M, R>(g, costs, distances, queue@, adjacent@[j]));
            }
        }
    }
}

/// Returns a map from vertices to the total cost of the shortest path to
/// them from `v0` along the adjacencies `A`; a vertex that cannot be reached
/// has no distance. No cost may make a distance shorter.
pub fn dijkstra<G, A, C, D, M>(g: &G, costs: &M, v0: G::Vert, zero: D) -> (distances: <G as VertMaps<
    Option<D>,
>>::VertMap) where
    G: VertMaps<Option<D>> + VertMaps<Option<Index>>,
    A: Adjacencies<G>,
    C: Copy,
    D: Distance<C>,
    M: MapGet<G::Edge, Value = C>,

    requires
        g.wf(),
        g.vert_set().contains(v0),
        g.vert_set().len() <= Index::limit(),
        forall|e: G::Edge| g.edge_set().contains(e) ==> costs.defined(e),
        costs_lengthen::<G, C, D, M>(g, costs),
    ensures
        forall|v: G::Vert| distances.defined(v),
        shortest::<G, A, C, D, M, <G as VertMaps<Option<D>>>::VertMap>(
            g,
            costs,
            &distances,
            v0,
            zero,
        ),
{
    proof {
        g.lemma_finite();
    }
    let mut queue = BinaryHeap::new(<G as VertMaps<Option<Index>>>::ephemeral_vert_map(g, None));
    let mut distances = <G as VertMaps<Option<D>>>::ephemeral_vert_map(g, None);
    queue.try_decrease(v0, zero);
    let ghost mut done: Set<G::Vert> = Set::empty();
    proof {
        assert(queue@ =~= Map::<G::Vert, D>::empty().insert(v0, zero));
        lemma_reachable_self::<G, A>(g, v0);
        lemma_realised_start::<G, A, C, D, M>(g, costs, v0, zero);
    }
    loop
        invariant
            g.wf(),
            g.vert_set().finite(),
            g.vert_set().len() <= Index::limit(),
            forall|e: G::Edge| g.edge_set().contains(e) ==> costs.defined(e),
            forall|w: G::Vert| distances.defined(w),
            costs_lengthen::<G, C, D, M>(g, costs),
            queue.wf(),
            searching::<G, A, C, D, M, <G as VertMaps<Option<D>>>::VertMap>(
                g,
                costs,
                &distances,
                queue@,
                v0,
                zero,
            ),
            forall|e: G::Edge|
                g.edge_set().contains(e) ==> #[trigger] settled::<
                    G,
                    A,
                    C,
                    D,
                    M,
                    <G as VertMaps<Option<D>>>::VertMap,
                >(g, costs, &distances, queue@, e),
            done.finite(),
            done.subset_of(g.vert_set()),
            forall|w: G::Vert| done.contains(w) <==> distances.at(w) is Some,
        ensures
            queue@ == Map::<G::Vert, D>::empty(),
        decreases g.vert_set().len() - done.len(),
    {
        let ghost waiting = queue@;
        let ghost before = distances;
        let (v, d) = match queue.pop() {
            Some(least) => least,
            None => {
                break ;
            },
        };
        *distances.get_mut(v) = Some(d);
        proof {
            let now = queue@;
            assert(is_least_entry(waiting, v, d));
            vstd::set_lib::lemma_len_subset(done.insert(v), g.vert_set());
            done = done.insert(v);
            D::lemma_total(&d, &d);
            if before.at(v0) is None {
                assert(waiting.contains_key(v0));
                assert(v == v0);
            }
            assert forall|w: G::Vert| (#[trigger] distances.at(w)) is Some implies derived::<
                G,
                A,
                C,
                D,
                M,
                <G as VertMaps<Option<D>>>::VertMap,
            >(g, costs, &distances, v0, zero, w, distances.at(w).unwrap()) by {
                if w == v {
                    assert(waiting.contains_key(v));
                } else {
                    assert(before.at(w) is Some);
                }
                lemma_derived_stays::<G, A, C, D, M, <G as VertMaps<Option<D>>>::VertMap>(
                    g,
                    costs,
                    &before,
                    &distances,
                    v0,
                    zero,
                    w,
                    distances.at(w).unwrap(),
                );
            }
            assert forall|u: G::Vert| #[trigger] now.contains_key(u) implies derived::<
                G,
                A,
                C,
                D,
                M,
                <G as VertMaps<Option<D>>>::VertMap,
            >(g, costs, &distances, v0, zero, u, now[u]) by {
                assert(waiting.contains_key(u));
                lemma_derived_stays::<G, A, C, D, M, <G as VertMaps<Option<D>>>::VertMap>(
                    g,
                    costs,
                    &before,
                    &distances,
                    v0,
                    zero,
                    u,
                    now[u],
                );
            }
            assert forall|w: G::Vert, u: G::Vert|
                (#[trigger] distances.at(w)) is Some && #[trigger] now.contains_key(
                    u,
                ) implies distances.at(w).unwrap().at_most_spec(&now[u]) by {
                assert(waiting.contains_key(u));
                if w != v {
                    assert(before.at(w) is Some);
                }
            }
            assert forall|w: G::Vert| (#[trigger] distances.at(w)) is Some implies reachable::<
                G,
                A,
            >(g, v0, w) by {
                if w != v {
                    assert(before.at(w) is Some);
                } else {
                    assert(waiting.contains_key(v));
                }
            }
            assert forall|u: G::Vert| #[trigger] now.contains_key(u) implies reachable::<G, A>(
                g,
                v0,
                u,
            ) by {
                assert(waiting.contains_key(u));
            }
            assert forall|w: G::Vert| (#[trigger] distances.at(w)) is Some implies realised::<
                G,
                A,
                C,
                D,
                M,
            >(g, costs, v0, zero, w, distances.at(w).unwrap()) by {
                if w != v {
                    assert(before.at(w) is Some);
                } else {
                    assert(waiting.contains_key(v));
                }
            }
            assert forall|w: G::Vert| (#[trigger] distances.at(w)) is Some implies traced::<
                G,
                A,
                C,
                D,
                M,
                <G as VertMaps<Option<D>>>::VertMap,
            >(g, costs, &distances, v0, zero, w) by {
                if w != v {
                    assert(before.at(w) is Some);
                    lemma_traced_stays::<G, A, C, D, M, <G as VertMaps<Option<D>>>::VertMap>(
                        g,
                        costs,
                        &before,
                        &distances,
                        v0,
                        zero,
                        w,
                    );
                } else if v == v0 {
                    assert(distances.at(v0) == Some(zero));
                    assert(is_trace::<G, A, C, D, M, <G as VertMaps<Option<D>>>::VertMap>(
                        g,
                        costs,
                        &distances,
                        v0,
                        zero,
                        v0,
                        Seq::<G::Edge>::empty(),
                    ));
                } else {
                    assert(waiting.contains_key(v));
                    assert(derived::<G, A, C, D, M, <G as VertMaps<Option<D>>>::VertMap>(
                        g,
                        costs,
                        &before,
                        v0,
                        zero,
                        v,
                        waiting[v],
                    ));
                    let e = choose|e: G::Edge|
                        {
                            &&& g.edge_set().contains(e)
                            &&& A::to_spec(g, e) == v
                            &&& (#[trigger] before.at(A::from_spec(g, e))) is Some
                            &&& waiting[v] == before.at(A::from_spec(g, e)).unwrap().plus_spec(
                                costs.at(e),
                            )
                        };
                    lemma_traced_stays::<G, A, C, D, M, <G as VertMaps<Option<D>>>::VertMap>(
                        g,
                        costs,
                        &before,
                        &distances,
                        v0,
                        zero,
                        A::from_spec(g, e),
                    );
                    lemma_traced_step::<G, A, C, D, M, <G as VertMaps<Option<D>>>::VertMap>(
                        g,
                        costs,
                        &distances,
                        v0,
                        zero,
                        e,
                    );
                }
            }
            assert forall|u: G::Vert| #[trigger] now.contains_key(u) implies realised::<
                G,
                A,
                C,
                D,
                M,
            >(g, costs, v0, zero, u, now[u]) by {
                assert(waiting.contains_key(u));
            }
            assert forall|w: G::Vert| (#[trigger] distances.at(w)) is Some implies distances.at(
                w,
            ).unwrap().at_most_spec(&d) by {
                if w != v {
                    assert(before.at(w) is Some);
                    assert(waiting.contains_key(v));
                }
            }
            assert forall|w: G::Vert| (#[trigger] distances.at(w)) is Some implies g.vert_set().contains(
                w,
            ) && !now.contains_key(w) by {
                if w != v {
                    assert(before.at(w) is Some);
                } else {
                    assert(waiting.contains_key(v));
                }
            }
            assert forall|e: G::Edge|
                g.edge_set().contains(e) && A::from_spec(g, e) != v implies #[trigger] settled::<
                    G,
                    A,
                    C,
                    D,
                    M,
                    <G as VertMaps<Option<D>>>::VertMap,
                >(g, costs, &distances, now, e) by {
                assert(settled::<G, A, C, D, M, <G as VertMaps<Option<D>>>::VertMap>(
                    g,
                    costs,
                    &before,
                    waiting,
                    e,
                ));
                let from = A::from_spec(g, e);
                let to = A::to_spec(g, e);
                if distances.at(from) is Some {
                    assert(before.at(from) is Some);
                    if before.at(to) is Some {
                        assert(distances.at(to) == before.at(to));
                    }
                }
            }
        }
        relax::<G, A, C, D, M, <G as VertMaps<Option<D>>>::VertMap, <G as VertMaps<
            Option<Index>,
        >>::VertMap>(g, costs, &mut queue, &distances, v, d, Ghost(v0), Ghost(zero));
    }
    proof {
        assert(distances.at(v0) is Some) by {
            if distances.at(v0) is None {
                assert(queue@.contains_key(v0));
            }
        }
        assert forall|e: G::Edge|
            g.edge_set().contains(e) && (#[trigger] distances.at(
                A::from_spec(g, e),
            )) is Some implies distances.at(A::to_spec(g, e)) is Some by {
            assert(settled::<G, A, C, D, M, <G as VertMaps<Option<D>>>::VertMap>(
                g,
                costs,
                &distances,
                queue@,
                e,
            ));
        }
        assert forall|v: G::Vert| reachable::<G, A>(g, v0, v) implies (#[trigger] distances.at(
            v,
        )) is Some by {
            let path = choose|path: Seq<G::Edge>| is_walk::<G, A>(g, v0, v, path);
            lemma_walk_is_covered::<G, A, D, <G as VertMaps<Option<D>>>::VertMap>(
                g,
                &distances,
                v0,
                v,
                path,
            );
        }
        assert forall|e: G::Edge|
            g.edge_set().contains(e) && (#[trigger] distances.at(A::from_spec(g, e))) is Some implies {
            &&& distances.at(A::to_spec(g, e)) is Some
            &&& distances.at(A::to_spec(g, e)).unwrap().at_most_spec(
                &distances.at(A::from_spec(g, e)).unwrap().plus_spec(costs.at(e)),
            )
        } by {
            assert(settled::<G, A, C, D, M, <G as VertMaps<Option<D>>>::VertMap>(
                g,
                costs,
                &distances,
                queue@,
                e,
            ));
        }
    }
    distances
}

/// Whether a cost keeps the ranks of two distances: of two distances, the
/// one that ranks no higher still ranks no higher when one cost is added to
/// both.
pub open spec fn plus_keeps_rank<C, D: Distance<C>>() -> bool {
    forall|a: D, b: D, c: C|
        #![trigger a.plus_spec(c), b.plus_spec(c)]
        a.at_most_spec(&b) ==> a.plus_spec(c).at_most_spec(&b.plus_spec(c))
}

/// Where costs keep the ranks of distances, the distance that a search
/// leaves for a vertex ranks no higher than the distance at the end of any
/// walk from the start to it. With the walk that has that very distance at
/// its end, the distance of a vertex is the least among all walks.
pub proof fn lemma_no_walk_is_cheaper<
    G: Digraph,
    A: Adjacencies<G>,
    C,
    D: Distance<C>,
    M: MapGet<G::Edge, Value = C>,
    R: MapGet<G::Vert, Value = Option<D>>,
>(g: &G, costs: &M, distances: &R, v0: G::Vert, zero: D, v: G::Vert, path: Seq<G::Edge>)
    requires
        shortest::<G, A, C, D, M, R>(g, costs, distances, v0, zero),
        plus_keeps_rank::<C, D>(),
        is_walk::<G, A>(g, v0, v, path),
    ensures
        distances.at(v) is Some,
        distances.at(v).unwrap().at_most_spec(&walk_cost::<G::Edge, C, D, M>(costs, zero, path)),
    decreases path.len(),
{
    if path.len() == 0 {
        D::lemma_total(&zero, &zero);
    } else {
        let last = path.last();
        let before = A::from_spec(g, last);
        lemma_walk_prefix::<G, A>(g, v0, v, path);
        lemma_no_walk_is_cheaper::<G, A, C, D, M, R>(
            g,
            costs,
            distances,
            v0,
            zero,
            before,
            path.drop_last(),
        );
        let near = distances.at(before).unwrap();
        let along = walk_cost::<G::Edge, C, D, M>(costs, zero, path.drop_last());
        assert(distances.at(A::from_spec(g, last)) is Some);
        assert(near.plus_spec(costs.at(last)).at_most_spec(&along.plus_spec(costs.at(last))));
        D::lemma_transitive(
            &distances.at(v).unwrap(),
            &near.plus_spec(costs.at(last)),
            &along.plus_spec(costs.at(last)),
        );
    }
}

/// Where costs keep the ranks of distances, two searches from one start
/// give distances to the same vertices, and the two distances of a vertex
/// rank alike.
pub proof fn lemma_searches_agree<
    G: Digraph,
    A: Adjacencies<G>,
    C,
    D: Distance<C>,
    M: MapGet<G::Edge, Value = C>,
    R: MapGet<G::Vert, Value = Option<D>>,
>(g: &G, costs: &M, first: &R, second: &R, v0: G::Vert, zero: D, v: G::Vert)
    requires
        shortest::<G, A, C, D, M, R>(g, costs, first, v0, zero),
        shortest::<G, A, C, D, M, R>(g, costs, second, v0, zero),
        plus_keeps_rank::<C, D>(),
    ensures
        first.at(v) is Some <==> second.at(v) is Some,
        first.at(v) is Some ==> first.at(v).unwrap().at_most_spec(&second.at(v).unwrap())
            && second.at(v).unwrap().at_most_spec(&first.at(v).unwrap()),
{
    assert(first.at(v) is Some <==> reachable::<G, A>(g, v0, v));
    assert(second.at(v) is Some <==> reachable::<G, A>(g, v0, v));
    if first.at(v) is Some {
        assert(realised::<G, A, C, D, M>(g, costs, v0, zero, v, first.at(v).unwrap()));
        let one = choose|path: Seq<G::Edge>|
            is_walk::<G, A>(g, v0, v, path) && first.at(v).unwrap() == walk_cost::<
                G::Edge,
                C,
                D,
                M,
            >(costs, zero, path);
        lemma_no_walk_is_cheaper::<G, A, C, D, M, R>(g, costs, second, v0, zero, v, one);
        assert(realised::<G, A, C, D, M>(g, costs, v0, zero, v, second.at(v).unwrap()));
        let other = choose|path: Seq<G::Edge>|
            is_walk::<G, A>(g, v0, v, path) && second.at(v).unwrap() == walk_cost::<
                G::Edge,
                C,
                D,
                M,
            >(costs, zero, path);
        lemma_no_walk_is_cheaper::<G, A, C, D, M, R>(g, costs, first, v0, zero, v, other);
    }
}

} // verus!
