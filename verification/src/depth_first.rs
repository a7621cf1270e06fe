//! Depth-first traversal as a sequence of events that is produced one event
//! per call, with an explicit stack in place of recursion.

use vstd::prelude::*;
use core::marker::PhantomData;
use crate::adjacencies::{adjacent_set, Adjacencies};
use crate::digraph::{Digraph, VertMaps};
use crate::map::{MapGet, MapMut};
use crate::seq_facts::{enumerates, lemma_enumerated_len, lemma_seq_within_set};

verus! {

/// Step of a depth-first graph traversal.
#[non_exhaustive]
pub enum DepthFirstEvent<G: Digraph> {
    /// Start of a new tree.
    StartTree(G::Vert),
    /// End of the current tree.
    EndTree,
    /// Opened a new edge, exploring from the vertex that it leads to.
    OpenEdge(G::Edge),
    /// Found an edge to a vertex that was reached by an edge and left again.
    CrossEdge(G::Edge),
    /// Found an edge to a vertex that is being explored, or to the root of
    /// a tree.
    BackEdge(G::Edge),
    /// Closed an edge, returning to the vertex that it came from.
    CloseEdge(G::Edge),
}

/// What the traversal knows of a vertex.
#[derive(Debug, Clone, Copy, PartialEq, Eq, Hash, PartialOrd, Ord)]
pub enum DepthFirstVisited {
    /// Not reached yet.
    No,
    /// Reached as a root, or by an edge that the traversal has not closed
    /// yet. A root keeps this mark when its tree ends.
    Open,
    /// Reached by an edge that the traversal has closed again.
    Closed,
}

impl Default for DepthFirstVisited {
    fn default() -> (mark: Self)
        ensures
            mark == DepthFirstVisited::No,
    {
        DepthFirstVisited::No
    }
}

/// How often each kind of event occurs in a sequence of events.
pub struct Tally {
    pub start_tree: nat,
    pub end_tree: nat,
    pub open_edge: nat,
    pub cross_edge: nat,
    pub back_edge: nat,
    pub close_edge: nat,
}

/// Counts the events of `events` by kind.
pub open spec fn tally<G: Digraph>(events: Seq<DepthFirstEvent<G>>) -> Tally
    decreases events.len(),
{
    if events.len() == 0 {
        Tally { start_tree: 0, end_tree: 0, open_edge: 0, cross_edge: 0, back_edge: 0, close_edge: 0 }
    } else {
        let t = tally(events.drop_last());
        match events.last() {
            DepthFirstEvent::StartTree(_) => Tally { start_tree: t.start_tree + 1, ..t },
            DepthFirstEvent::EndTree => Tally { end_tree: t.end_tree + 1, ..t },
            DepthFirstEvent::OpenEdge(_) => Tally { open_edge: t.open_edge + 1, ..t },
            DepthFirstEvent::CrossEdge(_) => Tally { cross_edge: t.cross_edge + 1, ..t },
            DepthFirstEvent::BackEdge(_) => Tally { back_edge: t.back_edge + 1, ..t },
            DepthFirstEvent::CloseEdge(_) => Tally { close_edge: t.close_edge + 1, ..t },
        }
    }
}

/// The edges that `events` report as found, in their order: those of the
/// `OpenEdge`, `CrossEdge` and `BackEdge` events.
pub open spec fn edges_seen<G: Digraph>(events: Seq<DepthFirstEvent<G>>) -> Seq<G::Edge>
    decreases events.len(),
{
    if events.len() == 0 {
        Seq::empty()
    } else {
        let earlier = edges_seen(events.drop_last());
        match events.last() {
            DepthFirstEvent::OpenEdge(e) => earlier.push(e),
            DepthFirstEvent::CrossEdge(e) => earlier.push(e),
            DepthFirstEvent::BackEdge(e) => earlier.push(e),
            _ => earlier,
        }
    }
}

/// The vertices that `events` report as reached, in their order: the roots of
/// the `StartTree` events and the far ends of the edges of the `OpenEdge`
/// events.
pub open spec fn verts_seen<G: Digraph, A: Adjacencies<G>>(
    g: &G,
    events: Seq<DepthFirstEvent<G>>,
) -> Seq<G::Vert>
    decreases events.len(),
{
    if events.len() == 0 {
        Seq::empty()
    } else {
        let earlier = verts_seen::<G, A>(g, events.drop_last());
        match events.last() {
            DepthFirstEvent::StartTree(v) => earlier.push(v),
            DepthFirstEvent::OpenEdge(e) => earlier.push(A::to_spec(g, e)),
            _ => earlier,
        }
    }
}

/// As many edges were seen as there are `OpenEdge`, `CrossEdge` and
/// `BackEdge` events.
pub proof fn lemma_edges_seen_len<G: Digraph>(events: Seq<DepthFirstEvent<G>>)
    ensures
        edges_seen(events).len() == tally(events).open_edge + tally(events).cross_edge + tally(
            events,
        ).back_edge,
    decreases events.len(),
{
    if events.len() > 0 {
        lemma_edges_seen_len(events.drop_last());
    }
}

/// What is left of a list without repetition once its item at `k` is taken
/// off the front of the rest.
proof fn lemma_rest_step<A>(s: Seq<A>, k: int)
    requires
        s.no_duplicates(),
        0 <= k < s.len(),
    ensures
        s.subrange(k, s.len() as int).len() > 0,
        s.subrange(k, s.len() as int)[0] == s[k],
        !s.subrange(k + 1, s.len() as int).contains(s[k]),
        forall|a: A|
            a != s[k] ==> (s.subrange(k + 1, s.len() as int).contains(a) <==> s.subrange(
                k,
                s.len() as int,
            ).contains(a)),
{
    let rest = s.subrange(k, s.len() as int);
    let next = s.subrange(k + 1, s.len() as int);
    if next.contains(s[k]) {
        let i = choose|i: int| 0 <= i < next.len() && next[i] == s[k];
        assert(s[k + 1 + i] == s[k]);
    }
    assert forall|a: A| a != s[k] implies (next.contains(a) <==> rest.contains(a)) by {
        if next.contains(a) {
            let i = choose|i: int| 0 <= i < next.len() && next[i] == a;
            assert(rest[i + 1] == a);
        }
        if rest.contains(a) {
            let i = choose|i: int| 0 <= i < rest.len() && rest[i] == a;
            assert(next[i - 1] == a);
        }
    }
}

/// A list without repetition stays so when an item that it lacks is added,
/// and then holds that item and what it held.
proof fn lemma_push_fresh<A>(s: Seq<A>, a: A)
    requires
        s.no_duplicates(),
        !s.contains(a),
    ensures
        s.push(a).no_duplicates(),
        forall|b: A| s.push(a).contains(b) <==> s.contains(b) || b == a,
{
    assert forall|i: int, j: int|
        0 <= i < s.push(a).len() && 0 <= j < s.push(a).len() && i != j implies s.push(a)[i]
        != s.push(a)[j] by {
        if i < s.len() {
            assert(s.contains(s[i]));
        }
        if j < s.len() {
            assert(s.contains(s[j]));
        }
    }
    assert forall|b: A| s.push(a).contains(b) <==> s.contains(b) || b == a by {
        if s.contains(b) {
            let i = choose|i: int| 0 <= i < s.len() && s[i] == b;
            assert(s.push(a)[i] == b);
        }
        if b == a {
            assert(s.push(a)[s.len() as int] == b);
        }
        if s.push(a).contains(b) {
            let i = choose|i: int| 0 <= i < s.push(a).len() && s.push(a)[i] == b;
            if i < s.len() {
                assert(s[i] == b);
            }
        }
    }
}

/// One level of the traversal: the vertex that is being explored, the edge
/// that led to it, and the adjacent edges of which those from `next` on are
/// still to be followed.
struct Frame<G: Digraph> {
    incoming: Option<G::Edge>,
    edges: Vec<G::Edge>,
    next: usize,
    vert: Ghost<G::Vert>,
}

/// Iterator that performs a depth-first graph traversal.
pub struct DepthFirst<'a, G: VertMaps<DepthFirstVisited>, Adj: Adjacencies<G>> {
    graph: &'a G,
    visited: G::VertMap,
    stack: Vec<Frame<G>>,
    vert_iter: Vec<G::Vert>,
    position: usize,
    trace: Ghost<Seq<DepthFirstEvent<G>>>,
    _adjacencies: PhantomData<Adj>,
}

impl<'a, G: VertMaps<DepthFirstVisited>, Adj: Adjacencies<G>> DepthFirst<'a, G, Adj> {
    /// The graph that is traversed.
    pub closed spec fn graph_spec(&self) -> &G {
        self.graph
    }

    /// What the traversal knows of `v`.
    pub closed spec fn mark(&self, v: G::Vert) -> DepthFirstVisited {
        self.visited.at(v)
    }

    /// The number of vertices that are being explored: the root of the
    /// current tree and the vertices on the path from it.
    pub closed spec fn depth(&self) -> nat {
        self.stack@.len()
    }

    /// The vertex that is explored at level `i`; level 0 is the root.
    pub closed spec fn frame_vert(&self, i: int) -> G::Vert {
        self.stack@[i].vert@
    }

    /// The edge that led to the vertex of level `i`; none for the root.
    pub closed spec fn frame_edge(&self, i: int) -> Option<G::Edge> {
        self.stack@[i].incoming
    }

    /// The adjacent edges of the vertex of level `i` that are still to be
    /// followed, the next one first.
    pub closed spec fn frame_rest(&self, i: int) -> Seq<G::Edge> {
        self.stack@[i].edges@.subrange(self.stack@[i].next as int, self.stack@[i].edges@.len() as int)
    }

    /// The vertices that are still to be tried as roots, the next one first.
    pub closed spec fn pending(&self) -> Seq<G::Vert> {
        self.vert_iter@.subrange(self.position as int, self.vert_iter@.len() as int)
    }

    /// The events that were produced so far.
    pub closed spec fn events(&self) -> Seq<DepthFirstEvent<G>> {
        self.trace@
    }

    /// Whether nothing is left to do: no vertex is being explored and every
    /// vertex that could still be a root was reached.
    pub open spec fn is_finished(&self) -> bool {
        &&& self.depth() == 0
        &&& forall|i: int|
            0 <= i < self.pending().len() ==> self.mark(#[trigger] self.pending()[i])
                != DepthFirstVisited::No
    }

    /// Whether the edge `e` was followed: the vertex that it is adjacent to
    /// was reached, and `e` is not among the edges that are still to be
    /// followed from there.
    pub open spec fn followed(&self, e: G::Edge) -> bool {
        &&& self.mark(Adj::from_spec(self.graph_spec(), e)) != DepthFirstVisited::No
        &&& forall|i: int|
            0 <= i < self.depth() && #[trigger] self.frame_vert(i) == Adj::from_spec(
                self.graph_spec(),
                e,
            ) ==> !self.frame_rest(i).contains(e)
    }

    /// What holds of a level and the level below it.
    spec fn frame_ok(&self, i: int) -> bool {
        let g = self.graph;
        let frame = self.stack@[i];
        &&& frame.next <= frame.edges@.len()
        &&& enumerates(frame.edges@, adjacent_set::<G, Adj>(g, frame.vert@))
        &&& g.vert_set().contains(frame.vert@)
        &&& self.visited.at(frame.vert@) != DepthFirstVisited::No
        &&& i == 0 ==> frame.incoming is None
        &&& i > 0 ==> {
            &&& frame.incoming is Some
            &&& g.edge_set().contains(frame.incoming.unwrap())
            &&& Adj::to_spec(g, frame.incoming.unwrap()) == frame.vert@
            &&& Adj::from_spec(g, frame.incoming.unwrap()) == self.stack@[i - 1].vert@
        }
    }

    /// What holds of every traversal between two calls.
    pub closed spec fn inv(&self) -> bool {
        let g = self.graph;
        &&& g.wf()
        &&& forall|v: G::Vert| self.visited.defined(v)
        &&& self.position <= self.vert_iter@.len()
        &&& enumerates(self.vert_iter@, g.vert_set())
        &&& forall|i: int|
            0 <= i < self.position ==> self.visited.at(#[trigger] self.vert_iter@[i])
                != DepthFirstVisited::No
        &&& forall|v: G::Vert|
            #[trigger] self.visited.at(v) != DepthFirstVisited::No ==> g.vert_set().contains(v)
        &&& forall|i: int| 0 <= i < self.stack@.len() ==> #[trigger] self.frame_ok(i)
        &&& forall|i: int, j: int|
            0 <= i < self.stack@.len() && 0 <= j < self.stack@.len() && i != j
                ==> #[trigger] self.frame_vert(i) != #[trigger] self.frame_vert(j)
        &&& tally(self.trace@).start_tree == tally(self.trace@).end_tree + (if self.stack@.len()
            > 0 {
            1nat
        } else {
            0nat
        })
        &&& tally(self.trace@).open_edge == tally(self.trace@).close_edge + (if self.stack@.len()
            > 0 {
            (self.stack@.len() - 1) as nat
        } else {
            0nat
        })
        &&& edges_seen(self.trace@).no_duplicates()
        &&& forall|e: G::Edge|
            #[trigger] edges_seen(self.trace@).contains(e) <==> g.edge_set().contains(e)
                && self.followed(e)
        &&& verts_seen::<G, Adj>(g, self.trace@).no_duplicates()
        &&& forall|v: G::Vert|
            #[trigger] verts_seen::<G, Adj>(g, self.trace@).contains(v) <==> self.visited.at(v)
                != DepthFirstVisited::No
    }

    /// Whether all levels below `count` are in `after` as they are in `self`.
    pub open spec fn same_frames(&self, after: &Self, count: int) -> bool {
        forall|i: int|
            #![trigger after.frame_vert(i)]
            #![trigger after.frame_edge(i)]
            #![trigger after.frame_rest(i)]
            0 <= i < count ==> {
                &&& after.frame_vert(i) == self.frame_vert(i)
                &&& after.frame_edge(i) == self.frame_edge(i)
                &&& after.frame_rest(i) == self.frame_rest(i)
            }
    }

    /// Whether the marks of `after` are those of `self`, but for `v`, which
    /// has `mark`.
    pub open spec fn marks_with(&self, after: &Self, v: G::Vert, mark: DepthFirstVisited) -> bool {
        forall|u: G::Vert|
            #[trigger] after.mark(u) == (if u == v {
                mark
            } else {
                self.mark(u)
            })
    }

    /// Whether the marks of `after` are those of `self`.
    pub open spec fn same_marks(&self, after: &Self) -> bool {
        forall|u: G::Vert| #[trigger] after.mark(u) == self.mark(u)
    }

    /// The step from the state `self`, in which some vertex is being
    /// explored and an adjacent edge is still to be followed, to the state
    /// `after` with the event `event`: the edge is classified by the mark of
    /// its far end, and a far end that was not reached yet is explored next.
    pub open spec fn follows_edge(&self, after: &Self, event: DepthFirstEvent<G>) -> bool
        recommends
            self.depth() > 0,
            self.frame_rest(self.depth() - 1).len() > 0,
    {
        let g = self.graph_spec();
        let top = self.depth() - 1;
        let e = self.frame_rest(top)[0];
        let v = Adj::to_spec(g, e);
        &&& Adj::from_spec(g, e) == self.frame_vert(top)
        &&& self.same_frames(after, top)
        &&& after.frame_vert(top) == self.frame_vert(top)
        &&& after.frame_edge(top) == self.frame_edge(top)
        &&& after.frame_rest(top) == self.frame_rest(top).drop_first()
        &&& after.pending() == self.pending()
        &&& match self.mark(v) {
            DepthFirstVisited::No => {
                &&& event == DepthFirstEvent::<G>::OpenEdge(e)
                &&& self.marks_with(after, v, DepthFirstVisited::Open)
                &&& after.depth() == self.depth() + 1
                &&& after.frame_vert(top + 1) == v
                &&& after.frame_edge(top + 1) == Some(e)
                &&& enumerates(after.frame_rest(top + 1), adjacent_set::<G, Adj>(g, v))
                &&& Adj::lists(g, v, after.frame_rest(top + 1))
            },
            DepthFirstVisited::Open => {
                &&& event == DepthFirstEvent::<G>::BackEdge(e)
                &&& self.same_marks(after)
                &&& after.depth() == self.depth()
            },
            DepthFirstVisited::Closed => {
                &&& event == DepthFirstEvent::<G>::CrossEdge(e)
                &&& self.same_marks(after)
                &&& after.depth() == self.depth()
            },
        }
    }

    /// The step from the state `self`, in which no adjacent edge of the
    /// vertex that is being explored is left, to the state `after` with the
    /// event `event`: the vertex is left; where an edge led to it, the edge
    /// is closed and the vertex is marked as closed, else the tree ends.
    pub open spec fn leaves_vert(&self, after: &Self, event: DepthFirstEvent<G>) -> bool
        recommends
            self.depth() > 0,
            self.frame_rest(self.depth() - 1).len() == 0,
    {
        let g = self.graph_spec();
        let top = self.depth() - 1;
        &&& after.depth() == top
        &&& self.same_frames(after, top)
        &&& after.pending() == self.pending()
        &&& match self.frame_edge(top) {
            Some(e) => {
                &&& event == DepthFirstEvent::<G>::CloseEdge(e)
                &&& Adj::to_spec(g, e) == self.frame_vert(top)
                &&& Adj::from_spec(g, e) == self.frame_vert(top - 1)
                &&& self.marks_with(after, self.frame_vert(top), DepthFirstVisited::Closed)
            },
            None => {
                &&& event == DepthFirstEvent::<G>::EndTree
                &&& top == 0
                &&& self.same_marks(after)
            },
        }
    }

    /// The step from the state `self`, in which no vertex is being explored,
    /// to the state `after`: the first pending vertex that was not reached
    /// yet becomes the root of a new tree; where there is none, nothing
    /// changes but that no vertex is pending any more.
    pub open spec fn starts_tree(&self, after: &Self, event: Option<DepthFirstEvent<G>>) -> bool
        recommends
            self.depth() == 0,
    {
        let g = self.graph_spec();
        match event {
            Some(event) => exists|i: int|
                {
                    &&& 0 <= i < self.pending().len()
                    &&& forall|j: int|
                        0 <= j < i ==> self.mark(#[trigger] self.pending()[j])
                            != DepthFirstVisited::No
                    &&& self.mark(self.pending()[i]) == DepthFirstVisited::No
                    &&& event == DepthFirstEvent::<G>::StartTree(self.pending()[i])
                    &&& after.pending() == self.pending().subrange(
                        i + 1,
                        self.pending().len() as int,
                    )
                    &&& self.marks_with(after, self.pending()[i], DepthFirstVisited::Open)
                    &&& after.depth() == 1
                    &&& after.frame_vert(0) == self.pending()[i]
                    &&& after.frame_edge(0) == None::<G::Edge>
                    &&& enumerates(
                        after.frame_rest(0),
                        adjacent_set::<G, Adj>(g, self.pending()[i]),
                    )
                    &&& Adj::lists(g, self.pending()[i], after.frame_rest(0))
                },
            None => {
                &&& self.is_finished()
                &&& after.pending().len() == 0
                &&& after.depth() == 0
                &&& self.same_marks(after)
            },
        }
    }

    /// The step from the state `self` to the state `after` with the result
    /// `event`.
    pub open spec fn steps_to(&self, after: &Self, event: Option<DepthFirstEvent<G>>) -> bool {
        &&& after.graph_spec() == self.graph_spec()
        &&& after.events() == (match event {
            Some(event) => self.events().push(event),
            None => self.events(),
        })
        &&& if self.depth() == 0 {
            self.starts_tree(after, event)
        } else if self.frame_rest(self.depth() - 1).len() > 0 {
            event is Some && self.follows_edge(after, event.unwrap())
        } else {
            event is Some && self.leaves_vert(after, event.unwrap())
        }
    }

    /// Constructs a new depth-first search over a graph. The roots will be
    /// tried in the order in which the graph hands out its vertices.
    pub fn new(g: &'a G) -> (search: Self)
        requires
            g.wf(),
        ensures
            search.inv(),
            search.graph_spec() == g,
            search.depth() == 0,
            search.events() == Seq::<DepthFirstEvent<G>>::empty(),
            enumerates(search.pending(), g.vert_set()),
            g.lists_verts(search.pending()),
            forall|v: G::Vert| search.mark(v) == DepthFirstVisited::No,
    {
        let vert_iter = g.verts();
        let search = DepthFirst {
            graph: g,
            visited: g.ephemeral_vert_map(DepthFirstVisited::No),
            stack: Vec::new(),
            vert_iter,
            position: 0,
            trace: Ghost(Seq::empty()),
            _adjacencies: PhantomData,
        };
        proof {
            assert(search.pending() =~= search.vert_iter@);
        }
        search
    }

    /// Follows the next adjacent edge of the vertex that is being explored.
    fn follow_edge(&mut self) -> (event: DepthFirstEvent<G>)
        requires
            old(self).inv(),
            old(self).depth() > 0,
            old(self).frame_rest(old(self).depth() - 1).len() > 0,
        ensures
            final(self).inv(),
            old(self).steps_to(final(self), Some(event)),
    {
        let g = self.graph;
        let top: usize = self.stack.len() - 1;
        let cursor: usize = self.stack[top].next;
        let count: usize = self.stack[top].edges.len();
        assert(self.frame_ok(top as int));
        assert(old(self).frame_rest(top as int).len() == count - cursor);
        let e = self.stack[top].edges[cursor];
        let ghost u = self.stack@[top as int].vert@;
        let ghost list = self.stack@[top as int].edges@;
        proof {
            assert(old(self).frame_rest(top as int).len() == list.len() - cursor);
            assert(cursor < list.len());
            lemma_rest_step(list, cursor as int);
            assert(list.contains(e));
            assert(adjacent_set::<G, Adj>(g, u).contains(e));
            Adj::lemma_ends_are_verts(g, e);
        }
        self.stack[top].next = cursor + 1;
        let v = Adj::to(g, e);
        let mark = *self.visited.get(v);
        let ghost mid = *self;
        proof {
            assert(mid.frame_rest(top as int) =~= old(self).frame_rest(top as int).drop_first());
            assert forall|i: int| 0 <= i < top implies mid.stack@[i] == old(self).stack@[i] by {}
            assert forall|i: int| 0 <= i < mid.stack@.len() implies #[trigger] mid.frame_ok(i) by {
                assert(old(self).frame_ok(i));
            }
            assert forall|i: int, j: int|
                0 <= i < mid.stack@.len() && 0 <= j < mid.stack@.len() && i != j implies #[trigger] mid.frame_vert(
                i,
            ) != #[trigger] mid.frame_vert(j) by {
                assert(old(self).frame_vert(i) != old(self).frame_vert(j));
            }
            assert(!old(self).followed(e)) by {
                assert(old(self).frame_vert(top as int) == u);
                assert(old(self).frame_rest(top as int)[0] == e);
            }
            assert forall|d: G::Edge| d != e implies (mid.followed(d) <==> old(self).followed(
                d,
            )) by {
                assert forall|i: int| 0 <= i < mid.depth() implies (mid.frame_rest(i).contains(d)
                    <==> old(self).frame_rest(i).contains(d)) && #[trigger] mid.frame_vert(i)
                    == old(self).frame_vert(i) by {
                    if i < top {
                        assert(mid.stack@[i] == old(self).stack@[i]);
                    } else {
                        assert(mid.frame_rest(i) == list.subrange(cursor + 1, list.len() as int));
                        assert(old(self).frame_rest(i) == list.subrange(
                            cursor as int,
                            list.len() as int,
                        ));
                    }
                }
                mid.lemma_followed_alike(old(self), d);
            }
            assert(mid.followed(e)) by {
                assert forall|i: int|
                    0 <= i < mid.depth() && #[trigger] mid.frame_vert(i) == u implies !mid.frame_rest(
                    i,
                ).contains(e) by {
                    if i != top {
                        assert(mid.frame_vert(i) != mid.frame_vert(top as int));
                    }
                }
            }
        }
        match mark {
            DepthFirstVisited::No => {
                *self.visited.get_mut(v) = DepthFirstVisited::Open;
                let edges = Adj::of(g, v);
                let ghost adjacent = edges@;
                assert(enumerates(adjacent, adjacent_set::<G, Adj>(g, v)));
                self.stack.push(Frame { incoming: Some(e), edges, next: 0, vert: Ghost(v) });
                let event = DepthFirstEvent::OpenEdge(e);
                self.trace = Ghost(self.trace@.push(event));
                proof {
                    let depth = self.stack@.len() as int;
                    let fresh = self.stack@[depth - 1];
                    assert(self.trace@.drop_last() =~= old(self).trace@);
                    assert(self.frame_rest(top + 1) =~= fresh.edges@);
                    assert forall|i: int| 0 <= i <= top implies self.stack@[i] == mid.stack@[i] by {}
                    assert forall|i: int| 0 <= i < depth implies #[trigger] self.frame_ok(i) by {
                        if i <= top {
                            assert(mid.frame_ok(i));
                            assert(self.visited.at(mid.stack@[i].vert@) != DepthFirstVisited::No);
                        } else {
                            assert(fresh.vert@ == v);
                            assert(fresh.edges@ == adjacent);
                            assert(self.stack@[i - 1].vert@ == u);
                        }
                    }
                    assert forall|i: int, j: int|
                        0 <= i < depth && 0 <= j < depth && i != j implies #[trigger] self.frame_vert(
                        i,
                    ) != #[trigger] self.frame_vert(j) by {
                        if i <= top && j <= top {
                            assert(mid.frame_vert(i) != mid.frame_vert(j));
                        } else if i <= top {
                            assert(mid.frame_ok(i));
                        } else {
                            assert(mid.frame_ok(j));
                        }
                    }
                    assert forall|d: G::Edge| #[trigger]
                        edges_seen(self.trace@).contains(d) <==> g.edge_set().contains(d)
                            && self.followed(d) by {
                        let w = Adj::from_spec(g, d);
                        assert(edges_seen(self.trace@) == edges_seen(mid.trace@).push(e));
                        assert(edges_seen(self.trace@).contains(d) <==> edges_seen(
                            mid.trace@,
                        ).contains(d) || d == e) by {
                            if edges_seen(mid.trace@).contains(d) {
                                let i = choose|i: int|
                                    0 <= i < edges_seen(mid.trace@).len() && edges_seen(
                                        mid.trace@,
                                    )[i] == d;
                                assert(edges_seen(self.trace@)[i] == d);
                            }
                            if d == e {
                                assert(edges_seen(self.trace@)[edges_seen(mid.trace@).len() as int]
                                    == d);
                            }
                        }
                        if w == v {
                            assert(!old(self).followed(d));
                            if g.edge_set().contains(d) {
                                assert(adjacent_set::<G, Adj>(g, v).contains(d));
                                assert(fresh.edges@.contains(d));
                                assert(self.frame_vert(top + 1) == v);
                                assert(self.frame_rest(top + 1).contains(d));
                            }
                            assert(d != e);
                        } else {
                            assert(self.mark(w) == mid.mark(w));
                            assert forall|i: int|
                                0 <= i < mid.depth() implies #[trigger] self.frame_vert(i)
                                    == mid.frame_vert(i) && self.frame_rest(i) == mid.frame_rest(
                                    i,
                                ) by {}
                            assert(self.followed(d) <==> mid.followed(d)) by {
                                if mid.followed(d) {
                                    assert forall|i: int|
                                        0 <= i < self.depth() && #[trigger] self.frame_vert(i)
                                            == w implies !self.frame_rest(i).contains(d) by {
                                        if i <= top {
                                            assert(mid.frame_vert(i) == w);
                                        }
                                    }
                                }
                                if self.followed(d) {
                                    assert forall|i: int|
                                        0 <= i < mid.depth() && #[trigger] mid.frame_vert(i)
                                            == w implies !mid.frame_rest(i).contains(d) by {
                                        assert(self.frame_vert(i) == w);
                                    }
                                }
                            }
                        }
                    }
                    assert(verts_seen::<G, Adj>(g, self.trace@) == verts_seen::<G, Adj>(
                        g,
                        mid.trace@,
                    ).push(v));
                    lemma_push_fresh(verts_seen::<G, Adj>(g, mid.trace@), v);
                    lemma_push_fresh(edges_seen(mid.trace@), e);
                    assert forall|w: G::Vert| #[trigger]
                        verts_seen::<G, Adj>(g, self.trace@).contains(w) <==> self.visited.at(w)
                            != DepthFirstVisited::No by {
                        assert(verts_seen::<G, Adj>(g, mid.trace@).contains(w) <==> mid.visited.at(
                            w,
                        ) != DepthFirstVisited::No);
                    }
                }
                event
            },
            DepthFirstVisited::Open => {
                let event = DepthFirstEvent::BackEdge(e);
                self.trace = Ghost(self.trace@.push(event));
                proof {
                    assert(self.trace@.drop_last() =~= old(self).trace@);
                    assert(verts_seen::<G, Adj>(g, self.trace@) == verts_seen::<G, Adj>(
                        g,
                        mid.trace@,
                    ));
                    assert(edges_seen(self.trace@) == edges_seen(mid.trace@).push(e));
                    self.lemma_seen_more(mid, e);
                }
                event
            },
            DepthFirstVisited::Closed => {
                let event = DepthFirstEvent::CrossEdge(e);
                self.trace = Ghost(self.trace@.push(event));
                proof {
                    assert(self.trace@.drop_last() =~= old(self).trace@);
                    assert(verts_seen::<G, Adj>(g, self.trace@) == verts_seen::<G, Adj>(
                        g,
                        mid.trace@,
                    ));
                    assert(edges_seen(self.trace@) == edges_seen(mid.trace@).push(e));
                    self.lemma_seen_more(mid, e);
                }
                event
            },
        }
    }

    /// Two states that agree on the vertex to which `d` is adjacent, and on
    /// whether `d` is still to be followed from there, agree on whether `d`
    /// was followed.
    proof fn lemma_followed_alike(&self, other: &Self, d: G::Edge)
        requires
            self.graph == other.graph,
            self.depth() == other.depth(),
            self.mark(Adj::from_spec(self.graph, d)) != DepthFirstVisited::No <==> other.mark(
                Adj::from_spec(self.graph, d),
            ) != DepthFirstVisited::No,
            forall|i: int|
                0 <= i < self.depth() ==> #[trigger] self.frame_vert(i) == other.frame_vert(i) && (
                self.frame_rest(i).contains(d) <==> other.frame_rest(i).contains(d)),
        ensures
            self.followed(d) <==> other.followed(d),
    {
        let w = Adj::from_spec(self.graph, d);
        if other.followed(d) {
            assert forall|i: int|
                0 <= i < self.depth() && #[trigger] self.frame_vert(i) == w implies !self.frame_rest(
                i,
            ).contains(d) by {
                assert(other.frame_vert(i) == w);
            }
        }
        if self.followed(d) {
            assert forall|i: int|
                0 <= i < other.depth() && #[trigger] other.frame_vert(i) == w implies !other.frame_rest(
                i,
            ).contains(d) by {
                assert(self.frame_vert(i) == w);
            }
        }
    }

    /// A state that differs from a state `mid` only by one more event, which
    /// reports the edge `e` that `mid` holds as followed though its events
    /// do not report it, has its edges and vertices in order.
    proof fn lemma_seen_more(&self, mid: Self, e: G::Edge)
        requires
            self.graph == mid.graph,
            self.visited == mid.visited,
            self.stack == mid.stack,
            self.vert_iter == mid.vert_iter,
            self.position == mid.position,
            edges_seen(self.trace@) == edges_seen(mid.trace@).push(e),
            verts_seen::<G, Adj>(self.graph, self.trace@) == verts_seen::<G, Adj>(
                mid.graph,
                mid.trace@,
            ),
            edges_seen(mid.trace@).no_duplicates(),
            !edges_seen(mid.trace@).contains(e),
            mid.graph.edge_set().contains(e),
            mid.followed(e),
            forall|d: G::Edge|
                d != e ==> (#[trigger] edges_seen(mid.trace@).contains(d)
                    <==> mid.graph.edge_set().contains(d) && mid.followed(d)),
            forall|i: int| 0 <= i < mid.stack@.len() ==> #[trigger] mid.frame_ok(i),
            forall|i: int, j: int|
                0 <= i < mid.stack@.len() && 0 <= j < mid.stack@.len() && i != j
                    ==> #[trigger] mid.frame_vert(i) != #[trigger] mid.frame_vert(j),
        ensures
            forall|i: int| 0 <= i < self.stack@.len() ==> #[trigger] self.frame_ok(i),
            forall|i: int, j: int|
                0 <= i < self.stack@.len() && 0 <= j < self.stack@.len() && i != j
                    ==> #[trigger] self.frame_vert(i) != #[trigger] self.frame_vert(j),
            edges_seen(self.trace@).no_duplicates(),
            forall|d: G::Edge|
                #[trigger] edges_seen(self.trace@).contains(d) <==> self.graph.edge_set().contains(
                    d,
                ) && self.followed(d),
    {
        lemma_push_fresh(edges_seen(mid.trace@), e);
        assert forall|i: int| 0 <= i < self.stack@.len() implies #[trigger] self.frame_ok(i) by {
            assert(mid.frame_ok(i));
        }
        assert forall|i: int, j: int|
            0 <= i < self.stack@.len() && 0 <= j < self.stack@.len() && i != j implies #[trigger] self.frame_vert(
            i,
        ) != #[trigger] self.frame_vert(j) by {
            assert(mid.frame_vert(i) != mid.frame_vert(j));
        }
        assert forall|d: G::Edge| #[trigger]
            edges_seen(self.trace@).contains(d) <==> self.graph.edge_set().contains(d)
                && self.followed(d) by {
            assert forall|i: int| 0 <= i < mid.depth() implies #[trigger] self.frame_vert(i)
                == mid.frame_vert(i) && self.frame_rest(i) == mid.frame_rest(i) by {}
            self.lemma_followed_alike(&mid, d);
            assert(self.followed(d) <==> mid.followed(d));
            assert(edges_seen(self.trace@).contains(d) <==> edges_seen(mid.trace@).contains(d) || d
                == e);
            if d != e {
                assert(edges_seen(mid.trace@).contains(d) <==> mid.graph.edge_set().contains(d)
                    && mid.followed(d));
            }
        }
    }

    /// Leaves the vertex that is being explored, none of whose adjacent edges
    /// is left.
    fn leave_vert(&mut self) -> (event: DepthFirstEvent<G>)
        requires
            old(self).inv(),
            old(self).depth() > 0,
            old(self).frame_rest(old(self).depth() - 1).len() == 0,
        ensures
            final(self).inv(),
            old(self).steps_to(final(self), Some(event)),
    {
        let g = self.graph;
        let ghost top = self.stack@.len() - 1;
        assert(self.frame_ok(top));
        let frame = match self.stack.pop() {
            Some(frame) => frame,
            None => vstd::pervasive::unreached(),
        };
        let ghost mid = *self;
        proof {
            assert forall|i: int| 0 <= i < top implies mid.stack@[i] == old(self).stack@[i] by {}
            assert forall|d: G::Edge| mid.followed(d) <==> old(self).followed(d) by {
                let w = Adj::from_spec(g, d);
                if mid.followed(d) {
                    assert forall|i: int|
                        0 <= i < old(self).depth() && #[trigger] old(self).frame_vert(i)
                            == w implies !old(self).frame_rest(i).contains(d) by {
                        if i < top {
                            assert(mid.frame_vert(i) == w);
                        }
                    }
                }
                if old(self).followed(d) {
                    assert forall|i: int|
                        0 <= i < mid.depth() && #[trigger] mid.frame_vert(i)
                            == w implies !mid.frame_rest(i).contains(d) by {
                        assert(old(self).frame_vert(i) == w);
                    }
                }
            }
        }
        match frame.incoming {
            Some(e) => {
                let v = Adj::to(g, e);
                *self.visited.get_mut(v) = DepthFirstVisited::Closed;
                let event = DepthFirstEvent::CloseEdge(e);
                self.trace = Ghost(self.trace@.push(event));
                proof {
                    assert(self.trace@.drop_last() =~= old(self).trace@);
                    assert(edges_seen(self.trace@) == edges_seen(old(self).trace@));
                    assert(verts_seen::<G, Adj>(g, self.trace@) == verts_seen::<G, Adj>(
                        g,
                        old(self).trace@,
                    ));
                    assert forall|w: G::Vert|
                        self.visited.at(w) != DepthFirstVisited::No <==> old(self).visited.at(w)
                            != DepthFirstVisited::No by {}
                    assert forall|i: int| 0 <= i < self.stack@.len() implies #[trigger] self.frame_ok(
                        i,
                    ) by {
                        assert(old(self).frame_ok(i));
                    }
                    assert forall|i: int, j: int|
                        0 <= i < self.stack@.len() && 0 <= j < self.stack@.len() && i
                            != j implies #[trigger] self.frame_vert(i) != #[trigger] self.frame_vert(
                        j,
                    ) by {
                        assert(old(self).frame_vert(i) != old(self).frame_vert(j));
                    }
                    assert forall|d: G::Edge| #[trigger]
                        edges_seen(self.trace@).contains(d) <==> g.edge_set().contains(d)
                            && self.followed(d) by {
                        assert forall|i: int| 0 <= i < self.depth() implies #[trigger] self.frame_vert(
                            i,
                        ) == mid.frame_vert(i) && (self.frame_rest(i).contains(d)
                            <==> mid.frame_rest(i).contains(d)) by {}
                        self.lemma_followed_alike(&mid, d);
                        assert(edges_seen(old(self).trace@).contains(d) <==> g.edge_set().contains(
                            d,
                        ) && old(self).followed(d));
                    }
                    assert forall|w: G::Vert| #[trigger]
                        verts_seen::<G, Adj>(g, self.trace@).contains(w) <==> self.visited.at(w)
                            != DepthFirstVisited::No by {
                        assert(verts_seen::<G, Adj>(g, old(self).trace@).contains(w) <==> old(
                            self,
                        ).visited.at(w) != DepthFirstVisited::No);
                    }
                }
                event
            },
            None => {
                let event = DepthFirstEvent::EndTree;
                self.trace = Ghost(self.trace@.push(event));
                proof {
                    assert(self.trace@.drop_last() =~= old(self).trace@);
                    assert(edges_seen(self.trace@) == edges_seen(old(self).trace@));
                    assert(verts_seen::<G, Adj>(g, self.trace@) == verts_seen::<G, Adj>(
                        g,
                        old(self).trace@,
                    ));
                    assert forall|i: int| 0 <= i < self.stack@.len() implies #[trigger] self.frame_ok(
                        i,
                    ) by {
                        assert(old(self).frame_ok(i));
                    }
                    assert forall|d: G::Edge| #[trigger]
                        edges_seen(self.trace@).contains(d) <==> g.edge_set().contains(d)
                            && self.followed(d) by {
                        assert forall|i: int| 0 <= i < self.depth() implies #[trigger] self.frame_vert(
                            i,
                        ) == mid.frame_vert(i) && (self.frame_rest(i).contains(d)
                            <==> mid.frame_rest(i).contains(d)) by {}
                        self.lemma_followed_alike(&mid, d);
                        assert(edges_seen(old(self).trace@).contains(d) <==> g.edge_set().contains(
                            d,
                        ) && old(self).followed(d));
                    }
                    assert forall|w: G::Vert| #[trigger]
                        verts_seen::<G, Adj>(g, self.trace@).contains(w) <==> self.visited.at(w)
                            != DepthFirstVisited::No by {
                        assert(verts_seen::<G, Adj>(g, old(self).trace@).contains(w) <==> old(
                            self,
                        ).visited.at(w) != DepthFirstVisited::No);
                    }
                }
                event
            },
        }
    }

    /// Looks for the next vertex that was not reached yet and makes it the
    /// root of a new tree.
    fn start_tree(&mut self) -> (event: Option<DepthFirstEvent<G>>)
        requires
            old(self).inv(),
            old(self).depth() == 0,
        ensures
            final(self).inv(),
            old(self).steps_to(final(self), event),
    {
        let g = self.graph;
        let count: usize = self.vert_iter.len();
        while self.position < count
            invariant
                self.graph == old(self).graph,
                self.visited == old(self).visited,
                self.stack == old(self).stack,
                self.vert_iter == old(self).vert_iter,
                self.trace == old(self).trace,
                g == self.graph,
                count == self.vert_iter@.len(),
                old(self).position <= self.position <= count,
                old(self).inv(),
                old(self).depth() == 0,
                forall|i: int|
                    old(self).position <= i < self.position ==> self.visited.at(
                        #[trigger] self.vert_iter@[i],
                    ) != DepthFirstVisited::No,
            decreases count - self.position,
        {
            let ghost skipped = self.position - old(self).position;
            let v = self.vert_iter[self.position];
            self.position = self.position + 1;
            let mark = *self.visited.get(v);
            match mark {
                DepthFirstVisited::No => {
                    proof {
                        assert(self.vert_iter@.contains(v));
                        assert(g.vert_set().contains(v));
                    }
                    *self.visited.get_mut(v) = DepthFirstVisited::Open;
                    let edges = Adj::of(g, v);
                    let ghost adjacent = edges@;
                    assert(enumerates(adjacent, adjacent_set::<G, Adj>(g, v)));
                    self.stack.push(Frame { incoming: None, edges, next: 0, vert: Ghost(v) });
                    let event = DepthFirstEvent::StartTree(v);
                    self.trace = Ghost(self.trace@.push(event));
                    proof {
                        let before = old(self);
                        assert(self.trace@.drop_last() =~= before.trace@);
                        assert(self.stack@.len() == 1);
                        assert(self.stack@[0].edges@ == adjacent);
                        assert(self.frame_rest(0) =~= adjacent);
                        assert(self.frame_ok(0));
                        assert(edges_seen(self.trace@) == edges_seen(before.trace@));
                        assert(verts_seen::<G, Adj>(g, self.trace@) == verts_seen::<G, Adj>(
                            g,
                            before.trace@,
                        ).push(v));
                        assert(!verts_seen::<G, Adj>(g, before.trace@).contains(v));
                        lemma_push_fresh(verts_seen::<G, Adj>(g, before.trace@), v);
                        assert forall|w: G::Vert| #[trigger]
                            verts_seen::<G, Adj>(g, self.trace@).contains(w) <==> self.visited.at(
                                w,
                            ) != DepthFirstVisited::No by {
                            assert(verts_seen::<G, Adj>(g, before.trace@).contains(w)
                                <==> before.visited.at(w) != DepthFirstVisited::No);
                        }
                        assert forall|d: G::Edge| #[trigger]
                            edges_seen(self.trace@).contains(d) <==> g.edge_set().contains(d)
                                && self.followed(d) by {
                            let w = Adj::from_spec(g, d);
                            assert(edges_seen(before.trace@).contains(d) <==> g.edge_set().contains(
                                d,
                            ) && before.followed(d));
                            if w == v {
                                assert(!before.followed(d));
                                if g.edge_set().contains(d) {
                                    assert(adjacent_set::<G, Adj>(g, v).contains(d));
                                    assert(adjacent.contains(d));
                                    assert(self.frame_vert(0) == v);
                                    assert(self.frame_rest(0).contains(d));
                                }
                            } else {
                                assert(self.mark(w) == before.mark(w));
                                assert(self.frame_vert(0) == v);
                            }
                        }
                        assert forall|i: int| 0 <= i < self.position implies self.visited.at(
                            #[trigger] self.vert_iter@[i],
                        ) != DepthFirstVisited::No by {
                            if i < before.position {
                                assert(before.visited.at(before.vert_iter@[i])
                                    != DepthFirstVisited::No);
                            }
                        }
                        let pending = before.pending();
                        assert(pending[skipped] == v);
                        assert forall|j: int| 0 <= j < skipped implies before.mark(
                            #[trigger] pending[j],
                        ) != DepthFirstVisited::No by {
                            assert(pending[j] == before.vert_iter@[before.position + j]);
                        }
                        assert(self.pending() =~= pending.subrange(
                            skipped + 1,
                            pending.len() as int,
                        ));
                        assert(before.starts_tree(self, Some(event)));
                    }
                    return Some(event);
                },
                _ => {},
            }
        }
        proof {
            let before = old(self);
            assert(self.pending().len() == 0);
            assert forall|i: int| 0 <= i < before.pending().len() implies before.mark(
                #[trigger] before.pending()[i],
            ) != DepthFirstVisited::No by {
                assert(before.pending()[i] == before.vert_iter@[before.position + i]);
            }
            assert forall|i: int| 0 <= i < self.position implies self.visited.at(
                #[trigger] self.vert_iter@[i],
            ) != DepthFirstVisited::No by {
                if i < before.position {
                    assert(before.visited.at(before.vert_iter@[i]) != DepthFirstVisited::No);
                }
            }
            assert forall|d: G::Edge| #[trigger]
                edges_seen(self.trace@).contains(d) <==> g.edge_set().contains(d) && self.followed(
                    d,
                ) by {
                assert(edges_seen(before.trace@).contains(d) <==> g.edge_set().contains(d)
                    && before.followed(d));
            }
        }
        None
    }

    /// Takes one step of the traversal and returns its event; `None` when
    /// nothing is left to do.
    pub fn next(&mut self) -> (event: Option<DepthFirstEvent<G>>)
        requires
            old(self).inv(),
        ensures
            final(self).inv(),
            old(self).steps_to(final(self), event),
            event is None <==> old(self).is_finished(),
    {
        let depth: usize = self.stack.len();
        if depth == 0 {
            let event = self.start_tree();
            proof {
                if event is Some {
                    let i = choose|i: int|
                        0 <= i < old(self).pending().len() && old(self).mark(
                            old(self).pending()[i],
                        ) == DepthFirstVisited::No;
                    assert(old(self).mark(old(self).pending()[i]) == DepthFirstVisited::No);
                }
            }
            event
        } else {
            let top: usize = depth - 1;
            assert(self.frame_ok(top as int));
            if self.stack[top].next < self.stack[top].edges.len() {
                Some(self.follow_edge())
            } else {
                Some(self.leave_vert())
            }
        }
    }

    /// No more vertices are being explored at a time than the graph has:
    /// the levels hold different vertices of the graph.
    pub proof fn lemma_depth_bounded(&self)
        requires
            self.inv(),
        ensures
            self.graph_spec().vert_set().finite(),
            self.depth() <= self.graph_spec().vert_set().len(),
            forall|i: int, j: int|
                0 <= i < self.depth() && 0 <= j < self.depth() && i != j ==> self.frame_vert(i)
                    != self.frame_vert(j),
    {
        let g = self.graph;
        g.lemma_finite();
        let explored = Seq::new(self.stack@.len(), |i: int| self.stack@[i].vert@);
        assert forall|i: int, j: int|
            0 <= i < explored.len() && 0 <= j < explored.len() && i != j implies explored[i]
            != explored[j] by {
            assert(self.frame_vert(i) != self.frame_vert(j));
        }
        assert forall|i: int| 0 <= i < explored.len() implies g.vert_set().contains(
            #[trigger] explored[i],
        ) by {
            assert(self.frame_ok(i));
        }
        lemma_seq_within_set(explored, g.vert_set());
        assert forall|i: int, j: int|
            0 <= i < self.depth() && 0 <= j < self.depth() && i != j implies self.frame_vert(i)
            != self.frame_vert(j) by {
            assert(explored[i] != explored[j]);
        }
    }

    /// The levels nest: the vertex of a level is a reached vertex of the
    /// graph; the root was led to by no edge; the vertex of every other level
    /// was led to by an edge from the vertex of the level below it; and the
    /// edges that are still to be followed at a level are edges adjacent to
    /// its vertex.
    pub proof fn lemma_levels_nest(&self, i: int)
        requires
            self.inv(),
            0 <= i < self.depth(),
        ensures
            self.graph_spec().vert_set().contains(self.frame_vert(i)),
            self.mark(self.frame_vert(i)) != DepthFirstVisited::No,
            i == 0 ==> self.frame_edge(i) is None,
            i > 0 ==> {
                &&& self.frame_edge(i) is Some
                &&& self.graph_spec().edge_set().contains(self.frame_edge(i).unwrap())
                &&& Adj::to_spec(self.graph_spec(), self.frame_edge(i).unwrap()) == self.frame_vert(
                    i,
                )
                &&& Adj::from_spec(self.graph_spec(), self.frame_edge(i).unwrap())
                    == self.frame_vert(i - 1)
            },
            self.frame_rest(i).no_duplicates(),
            forall|k: int|
                0 <= k < self.frame_rest(i).len() ==> self.graph_spec().edge_set().contains(
                    #[trigger] self.frame_rest(i)[k],
                ) && Adj::from_spec(self.graph_spec(), self.frame_rest(i)[k]) == self.frame_vert(i),
    {
        assert(self.frame_ok(i));
        let frame = self.stack@[i];
        assert forall|k: int| 0 <= k < self.frame_rest(i).len() implies self.graph.edge_set().contains(
            #[trigger] self.frame_rest(i)[k],
        ) && Adj::from_spec(self.graph, self.frame_rest(i)[k]) == self.frame_vert(i) by {
            assert(self.frame_rest(i)[k] == frame.edges@[frame.next + k]);
            assert(frame.edges@.contains(frame.edges@[frame.next + k]));
            assert(adjacent_set::<G, Adj>(self.graph, frame.vert@).contains(
                frame.edges@[frame.next + k],
            ));
        }
        assert forall|a: int, b: int|
            0 <= a < self.frame_rest(i).len() && 0 <= b < self.frame_rest(i).len() && a
                != b implies self.frame_rest(i)[a] != self.frame_rest(i)[b] by {
            assert(self.frame_rest(i)[a] == frame.edges@[frame.next + a]);
            assert(self.frame_rest(i)[b] == frame.edges@[frame.next + b]);
        }
    }

    /// Once nothing is left to do, the events that were produced tell of a
    /// whole traversal: as many trees ended as started, as many edges were
    /// closed as opened, every edge of the graph was reported once, as
    /// opened, as a back edge or as a cross edge, and every vertex of the
    /// graph was reached once, as a root or at the far end of an opened edge.
    pub proof fn lemma_finished(&self)
        requires
            self.inv(),
            self.is_finished(),
        ensures
            tally(self.events()).start_tree == tally(self.events()).end_tree,
            tally(self.events()).open_edge == tally(self.events()).close_edge,
            enumerates(edges_seen(self.events()), self.graph_spec().edge_set()),
            enumerates(
                verts_seen::<G, Adj>(self.graph_spec(), self.events()),
                self.graph_spec().vert_set(),
            ),
            self.graph_spec().edge_set().finite(),
            tally(self.events()).open_edge + tally(self.events()).cross_edge + tally(
                self.events(),
            ).back_edge == self.graph_spec().edge_set().len(),
    {
        let g = self.graph;
        assert forall|v: G::Vert| g.vert_set().contains(v) implies self.visited.at(v)
            != DepthFirstVisited::No by {
            assert(self.vert_iter@.contains(v));
            let i = choose|i: int| 0 <= i < self.vert_iter@.len() && self.vert_iter@[i] == v;
            if i >= self.position {
                assert(self.pending()[i - self.position] == v);
            }
        }
        assert forall|e: G::Edge| edges_seen(self.trace@).contains(e) <==> g.edge_set().contains(
            e,
        ) by {
            if g.edge_set().contains(e) {
                Adj::lemma_ends_are_verts(g, e);
                assert(self.followed(e));
            }
        }
        assert forall|v: G::Vert| verts_seen::<G, Adj>(g, self.trace@).contains(v)
            <==> g.vert_set().contains(v) by {}
        lemma_edges_seen_len(self.trace@);
        lemma_enumerated_len(edges_seen(self.trace@), g.edge_set());
    }
}

} // verus!
