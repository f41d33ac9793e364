//! The cheapest way between two nodes of the graph, by Dijkstra's algorithm.

use vstd::prelude::*;

use crate::db;
use crate::db::{Db, DbView};
use crate::error::{MksError, MksResult};
use crate::graph;
use crate::graph::{Edge, EdgeView, Node, NodeKind, NodeView, PathHop};
use crate::reads;
use crate::table;
use crate::text;
use crate::traverse;

verus! {

// ---------------------------------------------------------------------------
// Walks
// ---------------------------------------------------------------------------

/// One step of a walk: the edge taken, by its row, and the node it leads to.
pub struct Step {
    pub edge: int,
    pub to: Seq<char>,
}

/// Whether an edge joins two nodes, in either direction.
pub open spec fn joins(e: EdgeView, a: Seq<char>, b: Seq<char>) -> bool {
    (e.source == a && e.target == b) || (e.source == b && e.target == a)
}

/// The node at which a walk ends.
pub open spec fn walk_end(from: Seq<char>, steps: Seq<Step>) -> Seq<char> {
    if steps.len() == 0 {
        from
    } else {
        steps.last().to
    }
}

/// Whether the steps lead along edges, the first from the given node.
pub open spec fn is_walk(edges: Seq<EdgeView>, from: Seq<char>, steps: Seq<Step>) -> bool
    decreases steps.len(),
{
    steps.len() == 0 || {
        &&& is_walk(edges, from, steps.drop_last())
        &&& 0 <= steps.last().edge < edges.len()
        &&& joins(edges[steps.last().edge], walk_end(from, steps.drop_last()), steps.last().to)
    }
}

/// The weights of the edges of a walk together.
pub open spec fn walk_cost(edges: Seq<EdgeView>, steps: Seq<Step>) -> nat
    decreases steps.len(),
{
    if steps.len() == 0 {
        0
    } else {
        walk_cost(edges, steps.drop_last()) + edges[steps.last().edge].weight as nat
    }
}

/// Whether the steps lead from one node to the other.
pub open spec fn leads(
    edges: Seq<EdgeView>,
    from: Seq<char>,
    to: Seq<char>,
    steps: Seq<Step>,
) -> bool {
    is_walk(edges, from, steps) && walk_end(from, steps) == to
}

/// Whether the steps lead from one node to the other at the least cost.
pub open spec fn is_cheapest(
    edges: Seq<EdgeView>,
    from: Seq<char>,
    to: Seq<char>,
    steps: Seq<Step>,
) -> bool {
    &&& leads(edges, from, to, steps)
    &&& forall|other: Seq<Step>| #[trigger]
        leads(edges, from, to, other) ==> walk_cost(edges, steps) <= walk_cost(edges, other)
}

/// The contents of a list of steps.
pub open spec fn step_views(v: Seq<(usize, String)>) -> Seq<Step> {
    Seq::new(v.len(), |i: int| Step { edge: v[i].0 as int, to: v[i].1@ })
}

// ---------------------------------------------------------------------------
// The search
// ---------------------------------------------------------------------------

/// Whether each edge's ends are known by their places in a list of nodes.
spec fn is_mapped(edges: Seq<EdgeView>, ids: Seq<Seq<char>>, arcs: Seq<(usize, usize)>, n: int) -> bool {
    &&& arcs.len() == n
    &&& n <= edges.len()
    &&& ids.no_duplicates()
    &&& forall|k: int|
        0 <= k < n ==> (#[trigger] arcs[k]).0 < ids.len() && arcs[k].1 < ids.len()
            && ids[arcs[k].0 as int] == edges[k].source && ids[arcs[k].1 as int]
            == edges[k].target
}

/// A search in progress. Nodes are known by their places in `ids`.
struct Search {
    ids: Vec<String>,
    /// The places of the source and target of every edge.
    arcs: Vec<(usize, usize)>,
    /// The least cost known.
    dist: Vec<Option<u128>>,
    /// The node and the edge by which the least cost was found.
    prev: Vec<Option<(usize, usize)>>,
    /// Whether the least cost is final.
    done: Vec<bool>,
    /// A walk of the least cost known.
    ways: Ghost<Seq<Seq<Step>>>,
    /// The nodes whose cost is final, in the order in which it became so.
    settled: Ghost<Seq<int>>,
}

impl Search {
    /// Whether the parts of the search fit together.
    spec fn is_shaped(&self, edges: Seq<EdgeView>, start: int) -> bool {
        let n = self.ids@.len();
        &&& is_mapped(edges, table::rows(self.ids@), self.arcs@, edges.len() as int)
        &&& self.dist@.len() == n
        &&& self.prev@.len() == n
        &&& self.done@.len() == n
        &&& self.ways@.len() == n
        &&& 0 <= start < n
        &&& self.settled@.no_duplicates()
        &&& forall|k: int| 0 <= k < self.settled@.len() ==> 0 <= #[trigger] self.settled@[k] < n
        &&& forall|v: int|
            0 <= v < n ==> (#[trigger] self.done@[v] <==> self.settled@.contains(v))
    }

    /// Whether the cost of a node is that of its walk, and its walk goes by its
    /// predecessor.
    spec fn is_reached(&self, edges: Seq<EdgeView>, start: int, v: int) -> bool {
        let ids = table::rows(self.ids@);
        &&& is_walk(edges, ids[start], self.ways@[v])
        &&& walk_end(ids[start], self.ways@[v]) == ids[v]
        &&& self.dist@[v] == Some(walk_cost(edges, self.ways@[v]) as u128)
        &&& walk_cost(edges, self.ways@[v]) <= self.settled@.len() * 0xffff_ffff
        &&& if v == start {
            self.ways@[v].len() == 0 && self.prev@[v] is None
        } else {
            &&& self.prev@[v] matches Some((p, e))
            &&& p < self.ids@.len()
            &&& e < edges.len()
            &&& self.done@[p as int]
            &&& self.ways@[v] == self.ways@[p as int].push(Step { edge: e as int, to: ids[v] })
        }
    }

    /// The invariant of the search: every known cost is that of a walk, the
    /// start costs nothing, and final costs are no greater than the others.
    spec fn is_sound(&self, edges: Seq<EdgeView>, start: int) -> bool {
        &&& self.is_shaped(edges, start)
        &&& self.dist@[start] == Some(0u128)
        &&& forall|v: int|
            0 <= v < self.ids@.len() && (#[trigger] self.dist@[v]) is Some ==> self.is_reached(
                edges,
                start,
                v,
            )
        &&& forall|v: int|
            0 <= v < self.ids@.len() && #[trigger] self.done@[v] ==> self.dist@[v] is Some
        &&& forall|a: int, b: int|
            0 <= a < self.ids@.len() && 0 <= b < self.ids@.len() && #[trigger] self.done@[a]
                && !(#[trigger] self.done@[b]) && self.dist@[b] is Some ==> self.dist@[a].unwrap()
                <= self.dist@[b].unwrap()
    }

    /// Whether the cost of `v` takes account of an edge from `u`.
    spec fn is_relaxed(&self, u: int, v: int, w: u32) -> bool {
        self.dist@[v] is Some && self.dist@[v].unwrap() <= self.dist@[u].unwrap() + w
    }

    /// Whether the costs take account of edge `k` for a final node.
    spec fn is_relaxed_by(&self, edges: Seq<EdgeView>, u: int, k: int) -> bool {
        &&& self.arcs@[k].0 == u ==> self.is_relaxed(u, self.arcs@[k].1 as int, edges[k].weight)
        &&& self.arcs@[k].1 == u ==> self.is_relaxed(u, self.arcs@[k].0 as int, edges[k].weight)
    }

    /// Whether the costs take account of all edges of the final nodes but one.
    spec fn is_relaxed_but(&self, edges: Seq<EdgeView>, but: int) -> bool {
        forall|u: int, k: int|
            0 <= u < self.ids@.len() && u != but && self.done@[u] && 0 <= k < edges.len()
                ==> #[trigger] self.is_relaxed_by(edges, u, k)
    }

    /// Whether the search goes on as the other one, with no greater costs.
    spec fn extends(&self, other: &Search) -> bool {
        &&& self.ids@ == other.ids@
        &&& self.arcs@ == other.arcs@
        &&& self.done@ == other.done@
        &&& self.settled == other.settled
        &&& self.dist@.len() == other.dist@.len()
        &&& forall|x: int|
            0 <= x < other.dist@.len() && (#[trigger] other.dist@[x]) is Some ==> self.dist@[x] is Some
                && self.dist@[x].unwrap() <= other.dist@[x].unwrap()
        &&& forall|x: int|
            0 <= x < other.dist@.len() && #[trigger] other.done@[x] ==> self.dist@[x]
                == other.dist@[x]
    }

    /// Takes account of edge `k` from `u`, whose cost has become final last.
    fn relax(
        &mut self,
        u: usize,
        v: usize,
        k: usize,
        w: u32,
        Ghost(edges): Ghost<Seq<EdgeView>>,
        Ghost(start): Ghost<int>,
    )
        requires
            old(self).is_sound(edges, start),
            u < old(self).ids@.len(),
            v < old(self).ids@.len(),
            k < edges.len(),
            w == edges[k as int].weight,
            joins(
                edges[k as int],
                table::rows(old(self).ids@)[u as int],
                table::rows(old(self).ids@)[v as int],
            ),
            old(self).done@[u as int],
            forall|a: int|
                0 <= a < old(self).ids@.len() && #[trigger] old(self).done@[a] ==> old(
                    self,
                ).dist@[a].unwrap() <= old(self).dist@[u as int].unwrap(),
            old(self).dist@[u as int].unwrap() + w <= old(self).settled@.len() * 0xffff_ffff,
            old(self).settled@.len() <= old(self).ids@.len(),
        ensures
            final(self).is_sound(edges, start),
            final(self).extends(old(self)),
            final(self).is_relaxed(u as int, v as int, w),
    {
        let ghost before = *self;
        let n: usize = self.ids.len();
        assert(n <= 0xffff_ffff_ffff_ffff);
        assert(self.is_reached(edges, start, u as int));
        let known = self.dist[u];
        match known {
            Some(d) => {
                let cost: u128 = d + w as u128;
                let better: bool = match self.dist[v] {
                    Some(c) => cost < c,
                    None => true,
                };
                if better {
                    assert(!self.done@[v as int]);
                    assert(v != start);
                    let ghost ids = table::rows(self.ids@);
                    let ghost step = Step { edge: k as int, to: ids[v as int] };
                    let ghost way = self.ways@[u as int].push(step);
                    self.dist.set(v, Some(cost));
                    self.prev.set(v, Some((u, k)));
                    self.ways = Ghost(self.ways@.update(v as int, way));
                    proof {
                        assert(way.drop_last() =~= before.ways@[u as int]);
                        assert(way.last() == step);
                        assert(is_walk(edges, ids[start], way));
                        assert(walk_cost(edges, way) == cost);
                        assert forall|x: int|
                            0 <= x < self.ids@.len() && (
                            #[trigger] self.dist@[x]) is Some implies self.is_reached(
                            edges,
                            start,
                            x,
                        ) by {
                            if x != v {
                                assert(before.dist@[x] is Some);
                                assert(before.is_reached(edges, start, x));
                                if x != start {
                                    let (p, e) = before.prev@[x].unwrap();
                                    assert(before.done@[p as int]);
                                    assert(p != v);
                                }
                            }
                        }
                    }
                }
            },
            None => {
                assert(false);
            },
        }
    }

    /// The node with the least cost that is not final; of several the one with
    /// the greatest identifier.
    fn nearest_open(&self) -> (r: Option<usize>)
        requires
            self.dist@.len() == self.ids@.len(),
            self.done@.len() == self.ids@.len(),
        ensures
            match r {
                Some(u) => {
                    &&& u < self.ids@.len()
                    &&& !self.done@[u as int]
                    &&& self.dist@[u as int] is Some
                    &&& forall|x: int|
                        0 <= x < self.ids@.len() && !self.done@[x] && (
                        #[trigger] self.dist@[x]) is Some ==> self.dist@[u as int].unwrap()
                            <= self.dist@[x].unwrap()
                },
                None => forall|x: int|
                    0 <= x < self.ids@.len() && !self.done@[x] ==> (#[trigger] self.dist@[x]) is None,
            },
    {
        let n: usize = self.ids.len();
        let mut best: Option<usize> = None;
        let mut i: usize = 0;
        while i < n
            invariant
                i <= n == self.ids@.len(),
                self.dist@.len() == n,
                self.done@.len() == n,
                match best {
                    Some(u) => {
                        &&& u < i
                        &&& !self.done@[u as int]
                        &&& self.dist@[u as int] is Some
                        &&& forall|x: int|
                            0 <= x < i && !self.done@[x] && (#[trigger] self.dist@[x]) is Some
                                ==> self.dist@[u as int].unwrap() <= self.dist@[x].unwrap()
                    },
                    None => forall|x: int|
                        0 <= x < i && !self.done@[x] ==> (#[trigger] self.dist@[x]) is None,
                },
            decreases n - i,
        {
            if !self.done[i] {
                if let Some(d) = self.dist[i] {
                    let nearer: bool = match best {
                        Some(u) => match self.dist[u] {
                            Some(c) => {
                                if d == c {
                                    let mine = text::chars_of(self.ids[i].as_str());
                                    let theirs = text::chars_of(self.ids[u].as_str());
                                    text::lex_before(theirs.as_slice(), mine.as_slice())
                                } else {
                                    d < c
                                }
                            },
                            None => true,
                        },
                        None => true,
                    };
                    if nearer {
                        best = Some(i);
                    }
                }
            }
            i += 1;
        }
        best
    }

    /// Makes the cost of a node final and takes account of its edges: those
    /// that leave it first, then those that enter it.
    fn settle(
        &mut self,
        u: usize,
        edges: &Vec<Edge>,
        Ghost(start): Ghost<int>,
    )
        requires
            old(self).is_sound(table::rows(edges@), start),
            old(self).is_relaxed_but(table::rows(edges@), -1),
            u < old(self).ids@.len(),
            !old(self).done@[u as int],
            old(self).dist@[u as int] is Some,
            forall|x: int|
                0 <= x < old(self).ids@.len() && !old(self).done@[x] && (#[trigger] old(
                    self,
                ).dist@[x]) is Some ==> old(self).dist@[u as int].unwrap() <= old(
                    self,
                ).dist@[x].unwrap(),
        ensures
            final(self).is_sound(table::rows(edges@), start),
            final(self).is_relaxed_but(table::rows(edges@), -1),
            final(self).ids@ == old(self).ids@,
            final(self).done@ == old(self).done@.update(u as int, true),
            final(self).settled@.len() == old(self).settled@.len() + 1,
    {
        let ghost es = table::rows(edges@);
        let ghost before = *self;
        self.done.set(u, true);
        self.settled = Ghost(self.settled@.push(u as int));
        proof {
            assert(before.is_reached(es, start, u as int));
            assert(!before.settled@.contains(u as int));
            assert forall|v: int| 0 <= v < self.ids@.len() implies (#[trigger] self.done@[v]
                <==> self.settled@.contains(v)) by {
                if v == u {
                    assert(self.settled@[before.settled@.len() as int] == v);
                } else if before.done@[v] {
                    let k = choose|k: int|
                        0 <= k < before.settled@.len() && before.settled@[k] == v;
                    assert(self.settled@[k] == v);
                } else if self.settled@.contains(v) {
                    let k = choose|k: int| 0 <= k < self.settled@.len() && self.settled@[k] == v;
                    assert(before.settled@[k] == v);
                }
            }
            assert forall|v: int|
                0 <= v < self.ids@.len() && (#[trigger] self.dist@[v]) is Some implies self.is_reached(
            es, start, v) by {
                assert(before.dist@[v] is Some);
                assert(before.is_reached(es, start, v));
            }
            lemma_at_most(self.settled@, self.ids@.len() as int);
            assert(self.is_sound(es, start));
            assert(self.is_relaxed_but(es, u as int)) by {
                assert forall|a: int, k: int|
                    0 <= a < self.ids@.len() && a != u && self.done@[a] && 0 <= k
                        < es.len() implies #[trigger] self.is_relaxed_by(es, a, k) by {
                    assert(before.is_relaxed_by(es, a, k));
                }
            }
        }
        let ghost mid = *self;
        let m: usize = edges.len();
        let mut i: usize = 0;
        while i < m
            invariant
                i <= m == edges@.len(),
                es == table::rows(edges@),
                u < self.ids@.len(),
                self.is_sound(es, start),
                self.is_relaxed_but(es, u as int),
                self.extends(&mid),
                mid.done@[u as int],
                mid.dist@.len() == mid.ids@.len() == mid.done@.len(),
                mid.dist@[u as int] is Some,
                forall|a: int|
                    0 <= a < mid.ids@.len() && #[trigger] mid.done@[a] ==> mid.dist@[a].unwrap()
                        <= mid.dist@[u as int].unwrap(),
                mid.dist@[u as int].unwrap() + 0xffff_ffff <= mid.settled@.len() * 0xffff_ffff,
                mid.settled@.len() <= mid.ids@.len(),
                forall|k: int|
                    0 <= k < i && (#[trigger] self.arcs@[k]).0 == u ==> self.is_relaxed(
                        u as int,
                        self.arcs@[k].1 as int,
                        es[k].weight,
                    ),
            decreases m - i,
        {
            let (source, target) = self.arcs[i];
            if source == u {
                let ghost last = *self;
                self.relax(u, target, i, edges[i].weight, Ghost(es), Ghost(start));
                proof {
                    lemma_stays_relaxed(&last, &*self, es, u as int, start);
                }
            }
            i += 1;
        }
        let mut j: usize = 0;
        while j < m
            invariant
                j <= m == edges@.len(),
                es == table::rows(edges@),
                u < self.ids@.len(),
                self.is_sound(es, start),
                self.is_relaxed_but(es, u as int),
                self.extends(&mid),
                mid.done@[u as int],
                mid.dist@.len() == mid.ids@.len() == mid.done@.len(),
                mid.dist@[u as int] is Some,
                forall|a: int|
                    0 <= a < mid.ids@.len() && #[trigger] mid.done@[a] ==> mid.dist@[a].unwrap()
                        <= mid.dist@[u as int].unwrap(),
                mid.dist@[u as int].unwrap() + 0xffff_ffff <= mid.settled@.len() * 0xffff_ffff,
                mid.settled@.len() <= mid.ids@.len(),
                forall|k: int|
                    0 <= k < m && (#[trigger] self.arcs@[k]).0 == u ==> self.is_relaxed(
                        u as int,
                        self.arcs@[k].1 as int,
                        es[k].weight,
                    ),
                forall|k: int|
                    0 <= k < j && (#[trigger] self.arcs@[k]).1 == u ==> self.is_relaxed(
                        u as int,
                        self.arcs@[k].0 as int,
                        es[k].weight,
                    ),
            decreases m - j,
        {
            let (source, target) = self.arcs[j];
            if target == u {
                let ghost last = *self;
                self.relax(u, source, j, edges[j].weight, Ghost(es), Ghost(start));
                proof {
                    lemma_stays_relaxed(&last, &*self, es, u as int, start);
                }
            }
            j += 1;
        }
        assert(self.is_relaxed_but(es, -1)) by {
            assert forall|a: int, k: int|
                0 <= a < self.ids@.len() && a != -1 && self.done@[a] && 0 <= k
                    < es.len() implies #[trigger] self.is_relaxed_by(es, a, k) by {
                assert(self.arcs@[k].0 < self.ids@.len());
            }
        }
    }

    /// Runs the search until the cost of the goal is the least that is left.
    /// Returns whether the goal is in reach.
    fn run(&mut self, goal: usize, edges: &Vec<Edge>, Ghost(start): Ghost<int>) -> (r: bool)
        requires
            old(self).is_sound(table::rows(edges@), start),
            old(self).is_relaxed_but(table::rows(edges@), -1),
            goal < old(self).ids@.len(),
            !old(self).done@[goal as int],
        ensures
            final(self).is_sound(table::rows(edges@), start),
            final(self).ids@ == old(self).ids@,
            ({
                let es = table::rows(edges@);
                let from = table::rows(old(self).ids@)[start];
                let to = table::rows(old(self).ids@)[goal as int];
                if r {
                    final(self).dist@[goal as int] is Some && is_cheapest(
                        es,
                        from,
                        to,
                        final(self).ways@[goal as int],
                    )
                } else {
                    forall|other: Seq<Step>| !#[trigger] leads(es, from, to, other)
                }
            }),
    {
        let ghost es = table::rows(edges@);
        let ghost ids = table::rows(self.ids@);
        let n: usize = self.ids.len();
        loop
            invariant
                es == table::rows(edges@),
                self.ids@ == old(self).ids@,
                ids == table::rows(self.ids@),
                n == self.ids@.len(),
                self.is_sound(es, start),
                self.is_relaxed_but(es, -1),
                goal < self.ids@.len(),
                !self.done@[goal as int],
            decreases n - self.settled@.len(),
        {
            match self.nearest_open() {
                None => {
                    proof {
                        assert forall|other: Seq<Step>| !#[trigger]
                            leads(es, ids[start], ids[goal as int], other) by {
                            if leads(es, ids[start], ids[goal as int], other) {
                                let (v, x) = lemma_walk_bound(&*self, es, start, other);
                                assert(v == goal);
                            }
                        }
                    }
                    return false;
                },
                Some(u) => {
                    if u == goal {
                        proof {
                            let way = self.ways@[goal as int];
                            assert(self.is_reached(es, start, goal as int));
                            lemma_cost_bound(&*self, es, start, goal as int);
                            assert forall|other: Seq<Step>| #[trigger]
                                leads(es, ids[start], ids[goal as int], other) implies walk_cost(
                                es,
                                way,
                            ) <= walk_cost(es, other) by {
                                let (v, x) = lemma_walk_bound(&*self, es, start, other);
                                assert(v == goal);
                            }
                        }
                        return true;
                    }
                    proof {
                        let more = self.settled@.push(u as int);
                        assert(!self.settled@.contains(u as int));
                        lemma_at_most(more, n as int);
                    }
                    self.settle(u, edges, Ghost(start));
                },
            }
        }
    }

    /// The steps by which a node was reached.
    fn trace(&self, goal: usize, Ghost(edges): Ghost<Seq<EdgeView>>, Ghost(start): Ghost<int>) -> (r:
        Vec<(usize, String)>)
        requires
            self.is_sound(edges, start),
            goal < self.ids@.len(),
            self.dist@[goal as int] is Some,
        ensures
            step_views(r@) == self.ways@[goal as int],
    {
        let mut back: Vec<(usize, String)> = Vec::new();
        let mut at: usize = goal;
        assert(self.ways@[at as int] + step_views(back@).reverse() =~= self.ways@[at as int]);
        loop
            invariant
                self.prev@.len() == self.ids@.len(),
                self.is_sound(edges, start),
                at < self.ids@.len(),
                self.dist@[at as int] is Some,
                self.ways@[goal as int] == self.ways@[at as int] + step_views(back@).reverse(),
            ensures
                self.ways@[goal as int] == step_views(back@).reverse(),
            decreases self.ways@[at as int].len(),
        {
            let ghost had = back@;
            proof {
                lemma_way(self, edges, start, at as int);
            }
            match self.prev[at] {
                Some((p, e)) => {
                    let id = self.ids[at].clone();
                    proof {
                        lemma_step_back(self.ways@[p as int], had, e, id);
                    }
                    back.push((e, id));
                    at = p;
                },
                None => {
                    assert(self.ways@[at as int] + step_views(back@).reverse()
                        =~= step_views(back@).reverse());
                    break;
                },
            }
        }
        let mut out: Vec<(usize, String)> = Vec::new();
        assert(step_views(out@) + step_views(back@).reverse() =~= step_views(back@).reverse());
        while back.len() > 0
            invariant
                step_views(out@) + step_views(back@).reverse() == self.ways@[goal as int],
            decreases back@.len(),
        {
            let ghost had = back@;
            let ghost made = out@;
            if let Some(step) = back.pop() {
                out.push(step);
                assert(step_views(out@) + step_views(back@).reverse() =~= step_views(made)
                    + step_views(had).reverse());
            }
        }
        assert(step_views(out@) + step_views(back@).reverse() =~= step_views(out@));
        out
    }
}

/// Numbers that differ and are less than `n` are at most `n` many.
proof fn lemma_at_most(s: Seq<int>, n: int)
    requires
        s.no_duplicates(),
        n >= 0,
        forall|k: int| 0 <= k < s.len() ==> 0 <= #[trigger] s[k] < n,
    ensures
        s.len() <= n,
{
    s.unique_seq_to_set();
    vstd::set_lib::lemma_int_range(0, n);
    let range = vstd::set_lib::set_int_range(0, n);
    assert(s.to_set().subset_of(range)) by {
        assert forall|x: int| s.to_set().contains(x) implies range.contains(x) by {
            let k = choose|k: int| 0 <= k < s.len() && s[k] == x;
            assert(0 <= s[k] < n);
        }
    }
    vstd::set_lib::lemma_len_subset(s.to_set(), range);
}

/// What takes account of the edges goes on doing so when costs fall.
proof fn lemma_stays_relaxed(
    before: &Search,
    after: &Search,
    edges: Seq<EdgeView>,
    but: int,
    start: int,
)
    requires
        before.is_sound(edges, start),
        after.is_sound(edges, start),
        after.extends(before),
        before.is_relaxed_but(edges, but),
        0 <= but < before.ids@.len(),
        before.done@[but],
    ensures
        after.is_relaxed_but(edges, but),
        forall|v: int, w: u32|
            0 <= v < before.ids@.len() && before.is_relaxed(but, v, w) ==> #[trigger] after.is_relaxed(
                but,
                v,
                w,
            ),
{
    assert forall|u: int, k: int|
        0 <= u < after.ids@.len() && u != but && after.done@[u] && 0 <= k
            < edges.len() implies #[trigger] after.is_relaxed_by(edges, u, k) by {
        assert(before.done@[u]);
        assert(before.is_relaxed_by(edges, u, k));
        assert(after.arcs@[k].0 < after.ids@.len());
    }
}

/// A walk costs no less than the cost of its end, or than some cost that is not
/// final yet.
proof fn lemma_walk_bound(search: &Search, edges: Seq<EdgeView>, start: int, steps: Seq<Step>) -> (r:
    (int, Option<int>))
    requires
        search.is_sound(edges, start),
        search.is_relaxed_but(edges, -1),
        is_walk(edges, table::rows(search.ids@)[start], steps),
    ensures
        0 <= r.0 < search.ids@.len(),
        table::rows(search.ids@)[r.0] == walk_end(table::rows(search.ids@)[start], steps),
        match r.1 {
            None => search.dist@[r.0] is Some && search.dist@[r.0].unwrap() <= walk_cost(
                edges,
                steps,
            ),
            Some(x) => 0 <= x < search.ids@.len() && !search.done@[x] && search.dist@[x] is Some
                && search.dist@[x].unwrap() <= walk_cost(edges, steps),
        },
    decreases steps.len(),
{
    let ids = table::rows(search.ids@);
    if steps.len() == 0 {
        (start, None)
    } else {
        let (u, x) = lemma_walk_bound(search, edges, start, steps.drop_last());
        let k = steps.last().edge;
        let to = steps.last().to;
        let arc = search.arcs@[k];
        assert(ids[arc.0 as int] == edges[k].source);
        let v = if edges[k].source == ids[u] && edges[k].target == to {
            arc.1 as int
        } else {
            arc.0 as int
        };
        if x is Some {
            (v, x)
        } else if !search.done@[u] {
            (v, Some(u))
        } else {
            assert(search.is_relaxed_by(edges, u, k));
            (v, None)
        }
    }
}

/// The cost of a walk that was found fits into its number.
proof fn lemma_cost_bound(search: &Search, edges: Seq<EdgeView>, start: int, v: int)
    requires
        search.is_sound(edges, start),
        0 <= v < search.ids@.len() <= usize::MAX,
        search.dist@[v] is Some,
    ensures
        search.dist@[v].unwrap() == walk_cost(edges, search.ways@[v]),
{
    assert(search.is_reached(edges, start, v));
    lemma_at_most(search.settled@, search.ids@.len() as int);
}

/// The walk to a node goes by its predecessor, or is empty.
proof fn lemma_way(search: &Search, edges: Seq<EdgeView>, start: int, v: int)
    requires
        search.is_sound(edges, start),
        0 <= v < search.ids@.len(),
        search.dist@[v] is Some,
    ensures
        match search.prev@[v] {
            Some((p, e)) => {
                &&& p < search.ids@.len()
                &&& search.dist@[p as int] is Some
                &&& search.ways@[v] == search.ways@[p as int].push(
                    Step { edge: e as int, to: search.ids@[v]@ },
                )
            },
            None => search.ways@[v].len() == 0,
        },
{
    assert(search.is_reached(edges, start, v));
    if let Some((p, e)) = search.prev@[v] {
        assert(search.done@[p as int]);
    }
}

/// Moving the last step of a walk to the front of what follows it.
proof fn lemma_step_back(way: Seq<Step>, back: Seq<(usize, String)>, e: usize, id: String)
    ensures
        way.push(Step { edge: e as int, to: id@ }) + step_views(back).reverse() == way
            + step_views(back.push((e, id))).reverse(),
{
    let step = Step { edge: e as int, to: id@ };
    let more = back.push((e, id));
    assert(step_views(more) =~= step_views(back).push(step));
    assert(step_views(more).reverse() =~= seq![step] + step_views(back).reverse());
    assert(way.push(step) + step_views(back).reverse() =~= way + step_views(more).reverse());
}

// ---------------------------------------------------------------------------
// Results
// ---------------------------------------------------------------------------

/// The place of an identifier in the list, where it is put if it is not there.
fn place_of(ids: &mut Vec<String>, id: &str) -> (r: usize)
    requires
        table::rows(old(ids)@).no_duplicates(),
    ensures
        r < final(ids)@.len(),
        table::rows(final(ids)@).no_duplicates(),
        table::rows(final(ids)@)[r as int] == id@,
        old(ids)@.len() <= final(ids)@.len(),
        forall|k: int|
            0 <= k < old(ids)@.len() ==> #[trigger] table::rows(final(ids)@)[k] == table::rows(
                old(ids)@,
            )[k],
{
    let n: usize = ids.len();
    let mut i: usize = 0;
    while i < n
        invariant
            i <= n == ids@.len(),
            ids@ == old(ids)@,
            table::rows(ids@).no_duplicates(),
            forall|k: int| 0 <= k < i ==> #[trigger] table::rows(ids@)[k] != id@,
        decreases n - i,
    {
        assert(table::rows(ids@)[i as int] == ids@[i as int]@);
        if text::same(ids[i].as_str(), id) {
            return i;
        }
        i += 1;
    }
    let ghost had = ids@;
    ids.push(id.to_owned());
    assert(table::rows(ids@) =~= table::rows(had).push(id@));
    n
}

/// The cheapest walk between two nodes along the edges, in either direction,
/// as the rows of the edges taken and the nodes they lead to.
pub fn cheapest_walk(edges: &Vec<Edge>, from: &str, to: &str) -> (r: Option<Vec<(usize, String)>>)
    ensures
        match r {
            Some(steps) => is_cheapest(table::rows(edges@), from@, to@, step_views(steps@)),
            None => forall|steps: Seq<Step>| !#[trigger]
                leads(table::rows(edges@), from@, to@, steps),
        },
{
    let ghost es = table::rows(edges@);
    let mut ids: Vec<String> = Vec::new();
    assert(table::rows(ids@).no_duplicates());
    let start: usize = place_of(&mut ids, from);
    let goal: usize = place_of(&mut ids, to);
    assert(table::rows(ids@)[start as int] == from@);
    let mut arcs: Vec<(usize, usize)> = Vec::new();
    let m: usize = edges.len();
    let mut i: usize = 0;
    while i < m
        invariant
            i <= m == edges@.len(),
            es == table::rows(edges@),
            start < ids@.len(),
            goal < ids@.len(),
            table::rows(ids@)[start as int] == from@,
            table::rows(ids@)[goal as int] == to@,
            is_mapped(es, table::rows(ids@), arcs@, i as int),
        decreases m - i,
    {
        let ghost ids0 = ids@;
        let ghost arcs0 = arcs@;
        let source: usize = place_of(&mut ids, edges[i].source.as_str());
        let ghost ids1 = ids@;
        let target: usize = place_of(&mut ids, edges[i].target.as_str());
        assert(table::rows(ids@)[source as int] == table::rows(ids1)[source as int]);
        assert forall|k: int| 0 <= k < ids0.len() implies #[trigger] table::rows(ids@)[k]
            == table::rows(ids0)[k] by {
            assert(table::rows(ids1)[k] == table::rows(ids0)[k]);
        }
        arcs.push((source, target));
        assert forall|k: int| 0 <= k < i + 1 implies (#[trigger] arcs@[k]).0 < ids@.len()
            && arcs@[k].1 < ids@.len() && table::rows(ids@)[arcs@[k].0 as int] == es[k].source
            && table::rows(ids@)[arcs@[k].1 as int] == es[k].target by {
            if k < i {
                assert(arcs@[k] == arcs0[k]);
            }
        }
        assert(table::rows(ids@)[start as int] == table::rows(ids0)[start as int]);
        assert(table::rows(ids@)[goal as int] == table::rows(ids0)[goal as int]);
        i += 1;
    }
    let n: usize = ids.len();
    let mut dist: Vec<Option<u128>> = Vec::new();
    let mut prev: Vec<Option<(usize, usize)>> = Vec::new();
    let mut done: Vec<bool> = Vec::new();
    let mut j: usize = 0;
    while j < n
        invariant
            j <= n,
            start < n,
            dist@.len() == j,
            prev@.len() == j,
            done@.len() == j,
            forall|v: int|
                0 <= v < j ==> (#[trigger] dist@[v]) == if v == start {
                    Some(0u128)
                } else {
                    None
                },
            forall|v: int| 0 <= v < j ==> (#[trigger] prev@[v]) is None,
            forall|v: int| 0 <= v < j ==> !(#[trigger] done@[v]),
        decreases n - j,
    {
        if j == start {
            dist.push(Some(0));
        } else {
            dist.push(None);
        }
        prev.push(None);
        done.push(false);
        j += 1;
    }
    let mut search = Search {
        ids,
        arcs,
        dist,
        prev,
        done,
        ways: Ghost(Seq::new(n as nat, |v: int| Seq::<Step>::empty())),
        settled: Ghost(Seq::empty()),
    };
    proof {
        let none = Seq::<Step>::empty();
        assert(walk_cost(es, none) == 0);
        assert(search.is_sound(es, start as int));
        assert(search.is_relaxed_but(es, -1));
    }
    if search.run(goal, edges, Ghost(start as int)) {
        Some(search.trace(goal, Ghost(es), Ghost(start as int)))
    } else {
        None
    }
}

/// The node that a path shows for an identifier: the graph's, or a link by that
/// name where the graph holds none.
pub open spec fn shown(store: DbView, id: Seq<char>) -> NodeView {
    if traverse::has_node(store, id) {
        traverse::node_of(store, id)
    } else {
        NodeView { id, label: id, kind: NodeKind::WikiLink, doc_id: None, frequency: 1 }
    }
}

/// The hops of a walk: the nodes on it, each with the relation that led there.
pub open spec fn hops_of(store: DbView, from: Seq<char>, steps: Seq<Step>) -> Seq<
    (NodeView, Seq<char>),
> {
    seq![(shown(store, from), Seq::empty())] + Seq::new(
        steps.len(),
        |k: int| (shown(store, steps[k].to), store.edges[steps[k].edge].relation),
    )
}

/// The contents of a list of hops.
pub open spec fn hop_views(v: Seq<PathHop>) -> Seq<(NodeView, Seq<char>)> {
    Seq::new(v.len(), |i: int| (v[i].node@, v[i].relation@))
}

/// Whether the hops are those of a cheapest walk between two nodes; from a node
/// to itself that is the node alone.
pub open spec fn is_shortest_path(
    store: DbView,
    from: Seq<char>,
    to: Seq<char>,
    hops: Seq<(NodeView, Seq<char>)>,
) -> bool {
    &&& from == to ==> hops.len() == 1
    &&& exists|steps: Seq<Step>| #[trigger]
        is_cheapest(store.edges, from, to, steps) && hops == hops_of(store, from, steps)
}

impl Db {
    /// The node that a path shows for an identifier.
    fn shown_node(&self, id: &str) -> (r: Node)
        ensures
            r@ == shown(self@, id@),
    {
        match self.node_at(id) {
            Some(i) => self.nodes[i].clone(),
            None => Node {
                id: id.to_owned(),
                label: id.to_owned(),
                kind: NodeKind::WikiLink,
                doc_id: None,
                frequency: 1,
            },
        }
    }

    /// Dijkstra shortest path between nodes found by label (undirected traversal).
    pub fn shortest_path(&self, from_label: &str, to_label: &str) -> (r: MksResult<Vec<PathHop>>)
        ensures
            match (
                db::labelled(self@.nodes, from_label@),
                db::labelled(self@.nodes, to_label@),
            ) {
                (None, _) => r matches Err(MksError::NodeNotFound(e)) && e@ == from_label@,
                (Some(a), None) => r matches Err(MksError::NodeNotFound(e)) && e@ == to_label@,
                (Some(a), Some(b)) => {
                    let from = self@.nodes[a].id;
                    let to = self@.nodes[b].id;
                    match r {
                        Ok(hops) => is_shortest_path(self@, from, to, hop_views(hops@)),
                        Err(e) => {
                            &&& e matches MksError::NoPath(x, y)
                            &&& x@ == from_label@
                            &&& y@ == to_label@
                            &&& forall|steps: Seq<Step>| !#[trigger]
                                leads(self@.edges, from, to, steps)
                        },
                    }
                },
            },
            r matches Ok(hops) ==> reads::is_path_between(
                self@,
                from_label@,
                to_label@,
                hop_views(hops@),
            ),
            (r matches Err(MksError::NoPath(x, y))) ==> reads::are_apart(
                self@,
                from_label@,
                to_label@,
            ),
    {
        proof {
            reads::labels_stand_for_the_best_match(self@.nodes, from_label@);
            reads::labels_stand_for_the_best_match(self@.nodes, to_label@);
        }
        let from_id = match self.find_node_by_label(from_label) {
            Ok(id) => id,
            Err(e) => {
                return Err(e);
            },
        };
        let to_id = match self.find_node_by_label(to_label) {
            Ok(id) => id,
            Err(e) => {
                return Err(e);
            },
        };
        if text::same(from_id.as_str(), to_id.as_str()) {
            let mut hops: Vec<PathHop> = Vec::new();
            hops.push(PathHop { node: self.shown_node(from_id.as_str()), relation: String::new() });
            proof {
                staying_costs_nothing(self@.edges, from_id@);
                assert(hop_views(hops@) =~= hops_of(self@, from_id@, Seq::empty()));
                reads::paths_lead_between_the_best_matches(
                    self@,
                    from_label@,
                    to_label@,
                    from_id@,
                    to_id@,
                    hop_views(hops@),
                );
            }
            return Ok(hops);
        }
        match cheapest_walk(&self.edges, from_id.as_str(), to_id.as_str()) {
            Some(steps) => {
                let ghost walk = step_views(steps@);
                let ghost all = hops_of(self@, from_id@, walk);
                let mut hops: Vec<PathHop> = Vec::new();
                hops.push(
                    PathHop { node: self.shown_node(from_id.as_str()), relation: String::new() },
                );
                assert(hop_views(hops@) =~= all.take(1));
                let n: usize = steps.len();
                let mut i: usize = 0;
                while i < n
                    invariant
                        i <= n == steps@.len(),
                        walk == step_views(steps@),
                        all == hops_of(self@, from_id@, walk),
                        is_walk(self@.edges, from_id@, walk),
                        hop_views(hops@) == all.take(i + 1),
                    decreases n - i,
                {
                    let ghost had = hops@;
                    proof {
                        lemma_walk_edges(self@.edges, from_id@, walk, i as int);
                    }
                    let edge: usize = steps[i].0;
                    assert(walk[i as int].edge == edge);
                    hops.push(
                        PathHop {
                            node: self.shown_node(steps[i].1.as_str()),
                            relation: self.edges[edge].relation.clone(),
                        },
                    );
                    assert(hop_views(hops@) =~= hop_views(had).push(all[i + 1]));
                    i += 1;
                    assert(all.take(i + 1) =~= all.take(i as int).push(all[i as int]));
                }
                assert(all.take(n + 1) =~= all);
                proof {
                    reads::paths_lead_between_the_best_matches(
                        self@,
                        from_label@,
                        to_label@,
                        from_id@,
                        to_id@,
                        hop_views(hops@),
                    );
                }
                Ok(hops)
            },
            None => {
                proof {
                    reads::nodes_without_a_path_are_apart(
                        self@,
                        from_label@,
                        to_label@,
                        from_id@,
                        to_id@,
                    );
                }
                Err(MksError::NoPath(from_label.to_owned(), to_label.to_owned()))
            },
        }
    }
}

/// Every step of a walk takes an edge.
proof fn lemma_walk_edges(edges: Seq<EdgeView>, from: Seq<char>, steps: Seq<Step>, k: int)
    requires
        is_walk(edges, from, steps),
        0 <= k < steps.len(),
    ensures
        0 <= steps[k].edge < edges.len(),
    decreases steps.len(),
{
    if k < steps.len() - 1 {
        lemma_walk_edges(edges, from, steps.drop_last(), k);
    }
}

// ---------------------------------------------------------------------------
// Laws
// ---------------------------------------------------------------------------

/// A node is its own shortest path.
pub proof fn staying_costs_nothing(edges: Seq<EdgeView>, from: Seq<char>)
    ensures
        is_cheapest(edges, from, from, Seq::empty()),
        walk_cost(edges, Seq::empty()) == 0,
{
}

/// All cheapest walks between two nodes cost the same.
pub proof fn cheapest_walks_cost_the_same(
    edges: Seq<EdgeView>,
    from: Seq<char>,
    to: Seq<char>,
    a: Seq<Step>,
    b: Seq<Step>,
)
    requires
        is_cheapest(edges, from, to, a),
        is_cheapest(edges, from, to, b),
    ensures
        walk_cost(edges, a) == walk_cost(edges, b),
{
}

/// A walk with a step put before it.
proof fn lemma_prepend(
    edges: Seq<EdgeView>,
    from: Seq<char>,
    step: Step,
    rest: Seq<Step>,
)
    requires
        0 <= step.edge < edges.len(),
        joins(edges[step.edge], from, step.to),
        is_walk(edges, step.to, rest),
    ensures
        is_walk(edges, from, seq![step] + rest),
        walk_end(from, seq![step] + rest) == walk_end(step.to, rest),
        walk_cost(edges, seq![step] + rest) == edges[step.edge].weight + walk_cost(edges, rest),
    decreases rest.len(),
{
    let all = seq![step] + rest;
    if rest.len() == 0 {
        assert(all =~= seq![step]);
        assert(all.drop_last() =~= Seq::empty());
        assert(is_walk(edges, from, all.drop_last()));
        assert(walk_cost(edges, all.drop_last()) == 0);
        assert(walk_cost(edges, rest) == 0);
    } else {
        lemma_prepend(edges, from, step, rest.drop_last());
        assert(all.drop_last() =~= seq![step] + rest.drop_last());
        assert(all.last() == rest.last());
    }
}

/// The way back along a walk.
pub open spec fn reversed(from: Seq<char>, steps: Seq<Step>) -> Seq<Step>
    decreases steps.len(),
{
    if steps.len() == 0 {
        Seq::empty()
    } else {
        seq![Step { edge: steps.last().edge, to: walk_end(from, steps.drop_last()) }] + reversed(
            from,
            steps.drop_last(),
        )
    }
}

/// Every walk can be walked back, at the same cost.
pub proof fn walks_can_be_walked_back(
    edges: Seq<EdgeView>,
    from: Seq<char>,
    to: Seq<char>,
    steps: Seq<Step>,
)
    requires
        leads(edges, from, to, steps),
    ensures
        leads(edges, to, from, reversed(from, steps)),
        walk_cost(edges, reversed(from, steps)) == walk_cost(edges, steps),
    decreases steps.len(),
{
    if steps.len() > 0 {
        let front = steps.drop_last();
        let via = walk_end(from, front);
        walks_can_be_walked_back(edges, from, via, front);
        lemma_prepend(
            edges,
            to,
            Step { edge: steps.last().edge, to: via },
            reversed(from, front),
        );
    }
}

/// The shortest path there and the one back cost the same.
pub proof fn distance_is_symmetric(
    edges: Seq<EdgeView>,
    from: Seq<char>,
    to: Seq<char>,
    there: Seq<Step>,
    back: Seq<Step>,
)
    requires
        is_cheapest(edges, from, to, there),
        is_cheapest(edges, to, from, back),
    ensures
        walk_cost(edges, there) == walk_cost(edges, back),
{
    walks_can_be_walked_back(edges, from, to, there);
    walks_can_be_walked_back(edges, to, from, back);
}

} // verus!
