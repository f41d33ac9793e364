//! Walking the knowledge graph: neighbourhoods, hubs and the report on them.

use vstd::prelude::*;

use crate::db;
use crate::db::{Db, DbView};
use crate::graph;
use crate::graph::{EdgeView, Node, NodeView};
use crate::order;
use crate::table;
use crate::text;

verus! {

// ---------------------------------------------------------------------------
// Neighbourhoods
// ---------------------------------------------------------------------------

/// The other ends of a list of links.
pub open spec fn ends(links: Seq<(Seq<char>, Seq<char>, u32)>) -> Seq<Seq<char>> {
    Seq::new(links.len(), |i: int| links[i].0)
}

/// The nodes next to a node: the targets of the edges that leave it, then the
/// sources of those that enter it.
pub open spec fn neighbors(edges: Seq<EdgeView>, id: Seq<char>) -> Seq<Seq<char>> {
    ends(db::links_from(edges, id)) + ends(db::links_to(edges, id))
}

/// Whether the graph holds a node with the identifier.
pub open spec fn has_node(store: DbView, id: Seq<char>) -> bool {
    table::first_where(store.nodes, db::node_has_id(id)) is Some
}

/// The node with the identifier.
pub open spec fn node_of(store: DbView, id: Seq<char>) -> NodeView {
    store.nodes[table::first_where(store.nodes, db::node_has_id(id)).unwrap()]
}

/// Those of the identifiers that have not been seen, each once.
pub open spec fn fresh(seen: Seq<Seq<char>>, ids: Seq<Seq<char>>) -> Seq<Seq<char>>
    decreases ids.len(),
{
    if ids.len() == 0 {
        Seq::empty()
    } else {
        let before = fresh(seen, ids.drop_last());
        if seen.contains(ids.last()) || before.contains(ids.last()) {
            before
        } else {
            before.push(ids.last())
        }
    }
}

/// The nodes next to the first `n` of a list of nodes; nodes that the graph does
/// not hold have no neighbours.
pub open spec fn around(store: DbView, layer: Seq<Seq<char>>, n: int) -> Seq<Seq<char>>
    decreases n,
{
    if n <= 0 {
        Seq::empty()
    } else if has_node(store, layer[n - 1]) {
        around(store, layer, n - 1) + neighbors(store.edges, layer[n - 1])
    } else {
        around(store, layer, n - 1)
    }
}

/// How far a walk has come: all identifiers met, and those met last.
pub struct Wave {
    pub seen: Seq<Seq<char>>,
    pub layer: Seq<Seq<char>>,
}

/// The walk from the seeds after a number of hops in all directions.
pub open spec fn wave(store: DbView, seeds: Seq<Seq<char>>, depth: int) -> Wave
    decreases depth,
{
    if depth <= 0 {
        let first = fresh(Seq::empty(), seeds);
        Wave { seen: first, layer: first }
    } else {
        let last = wave(store, seeds, depth - 1);
        let next = fresh(last.seen, around(store, last.layer, last.layer.len() as int));
        Wave { seen: last.seen + next, layer: next }
    }
}

/// Those of the first `n` identifiers that are nodes, each with its degree.
pub open spec fn reported(store: DbView, ids: Seq<Seq<char>>, n: int) -> Seq<(NodeView, usize)>
    decreases n,
{
    if n <= 0 {
        Seq::empty()
    } else if has_node(store, ids[n - 1]) {
        reported(store, ids, n - 1).push(
            (node_of(store, ids[n - 1]), db::degree_of(store.edges, ids[n - 1])),
        )
    } else {
        reported(store, ids, n - 1)
    }
}

/// The estimated tokens that reporting a node takes.
pub open spec fn node_tokens(n: NodeView) -> nat {
    text::utf8_len(n.label) / 4 + 5
}

/// The estimated tokens that reporting the first `k` nodes takes.
pub open spec fn tokens_upto(found: Seq<(NodeView, usize)>, k: int) -> nat
    decreases k,
{
    if k <= 0 {
        0
    } else {
        tokens_upto(found, k - 1) + node_tokens(found[k - 1].0)
    }
}

/// How many nodes are reported: as few as use up the budget, or all of them.
/// `k` nodes do not.
pub open spec fn cut_from(found: Seq<(NodeView, usize)>, budget: int, k: int) -> int
    decreases found.len() - k,
{
    if k >= found.len() {
        found.len() as int
    } else if tokens_upto(found, k + 1) >= budget {
        k + 1
    } else {
        cut_from(found, budget, k + 1)
    }
}

/// The degrees of a list of nodes.
pub open spec fn degrees(found: Seq<(NodeView, usize)>) -> Seq<int> {
    Seq::new(found.len(), |i: int| found[i].1 as int)
}

/// The nodes found within a number of hops of the seeds and within a token
/// budget, nearest first.
pub open spec fn nearest(
    store: DbView,
    seeds: Seq<Seq<char>>,
    max_depth: int,
    budget: int,
) -> Seq<(NodeView, usize)> {
    let ids = wave(store, seeds, max_depth).seen;
    let found = reported(store, ids, ids.len() as int);
    found.take(cut_from(found, budget, 0))
}

/// The contents of a list of nodes with degrees.
pub open spec fn degree_views(v: Seq<(Node, usize)>) -> Seq<(NodeView, usize)> {
    Seq::new(v.len(), |i: int| (v[i].0@, v[i].1))
}

/// The cut lies within the list.
proof fn lemma_cut_bounds(found: Seq<(NodeView, usize)>, budget: int, k: int)
    requires
        0 <= k <= found.len(),
    ensures
        k <= cut_from(found, budget, k) <= found.len(),
    decreases found.len() - k,
{
    if k < found.len() && tokens_upto(found, k + 1) < budget {
        lemma_cut_bounds(found, budget, k + 1);
    }
}

/// Once nothing new is met, a walk stands still.
proof fn lemma_wave_stops(store: DbView, seeds: Seq<Seq<char>>, depth: int, later: int)
    requires
        0 <= depth <= later,
        wave(store, seeds, depth).layer.len() == 0,
    ensures
        wave(store, seeds, later).seen == wave(store, seeds, depth).seen,
        wave(store, seeds, later).layer.len() == 0,
    decreases later - depth,
{
    if depth < later {
        lemma_wave_stops(store, seeds, depth, later - 1);
        let last = wave(store, seeds, later - 1);
        assert(wave(store, seeds, later).seen =~= last.seen);
    }
}

/// Appends those of the identifiers that have not been seen.
fn push_fresh(
    seen: &Vec<String>,
    out: &mut Vec<String>,
    links: &Vec<(String, String, u32)>,
    Ghost(ids): Ghost<Seq<Seq<char>>>,
)
    requires
        table::rows(old(out)@) == fresh(table::rows(seen@), ids),
    ensures
        table::rows(final(out)@) == fresh(
            table::rows(seen@),
            ids + ends(db::link_views(links@)),
        ),
{
    let ghost all = ends(db::link_views(links@));
    let n: usize = links.len();
    let mut i: usize = 0;
    assert(ids + all.take(0) =~= ids);
    while i < n
        invariant
            i <= n == links@.len(),
            all == ends(db::link_views(links@)),
            table::rows(out@) == fresh(table::rows(seen@), ids + all.take(i as int)),
        decreases n - i,
    {
        let ghost had = out@;
        let ghost longer = ids + all.take(i + 1);
        assert(longer.drop_last() =~= ids + all.take(i as int));
        assert(longer.last() == links@[i as int].0@);
        let id = links[i].0.as_str();
        if !graph::contains_string(seen, id) && !graph::contains_string(out, id) {
            out.push(links[i].0.clone());
            assert(table::rows(out@) =~= table::rows(had).push(links@[i as int].0@));
        }
        i += 1;
    }
    assert(all.take(n as int) =~= all);
}

impl Db {
    /// The identifiers next to a layer of nodes that have not been seen.
    fn next_layer(&self, seen: &Vec<String>, layer: &Vec<String>) -> (r: Vec<String>)
        ensures
            table::rows(r@) == fresh(
                table::rows(seen@),
                around(self@, table::rows(layer@), layer@.len() as int),
            ),
    {
        let ghost ids = table::rows(layer@);
        let n: usize = layer.len();
        let mut out: Vec<String> = Vec::new();
        let mut i: usize = 0;
        assert(table::rows(out@) =~= Seq::empty());
        while i < n
            invariant
                i <= n == layer@.len(),
                ids == table::rows(layer@),
                table::rows(out@) == fresh(table::rows(seen@), around(self@, ids, i as int)),
            decreases n - i,
        {
            let id = layer[i].as_str();
            assert(ids[i as int] == id@);
            if self.node_at(id).is_some() {
                let leaving = self.edges_from(id);
                let entering = self.edges_to(id);
                let ghost before = around(self@, ids, i as int);
                push_fresh(seen, &mut out, &leaving, Ghost(before));
                push_fresh(
                    seen,
                    &mut out,
                    &entering,
                    Ghost(before + ends(db::link_views(leaving@))),
                );
                assert(before + ends(db::link_views(leaving@)) + ends(db::link_views(entering@))
                    =~= before + neighbors(self@.edges, id@));
            }
            i += 1;
        }
        out
    }

    /// The identifiers within `max_depth` hops of the seeds, nearest first.
    fn walk(&self, seed_ids: &Vec<String>, max_depth: usize) -> (r: Vec<String>)
        ensures
            table::rows(r@) == wave(self@, table::rows(seed_ids@), max_depth as int).seen,
    {
        let ghost seeds = table::rows(seed_ids@);
        let mut seen: Vec<String> = Vec::new();
        let n: usize = seed_ids.len();
        let mut i: usize = 0;
        assert(table::rows(seen@) =~= fresh(Seq::empty(), seeds.take(0)));
        while i < n
            invariant
                i <= n == seed_ids@.len(),
                seeds == table::rows(seed_ids@),
                table::rows(seen@) == fresh(Seq::empty(), seeds.take(i as int)),
            decreases n - i,
        {
            let ghost had = seen@;
            let ghost longer = seeds.take(i + 1);
            assert(longer.drop_last() =~= seeds.take(i as int));
            assert(longer.last() == seed_ids@[i as int]@);
            if !graph::contains_string(&seen, seed_ids[i].as_str()) {
                seen.push(seed_ids[i].clone());
                assert(table::rows(seen@) =~= table::rows(had).push(seed_ids@[i as int]@));
            }
            i += 1;
        }
        assert(seeds.take(n as int) =~= seeds);
        let mut layer = seen.clone();
        assert(table::rows(layer@) =~= table::rows(seen@));
        let mut depth: usize = 0;
        while depth < max_depth && layer.len() > 0
            invariant
                depth <= max_depth,
                table::rows(seen@) == wave(self@, seeds, depth as int).seen,
                table::rows(layer@) == wave(self@, seeds, depth as int).layer,
            decreases max_depth - depth,
        {
            let next = self.next_layer(&seen, &layer);
            let ghost had = seen@;
            let mut more = next.clone();
            assert(table::rows(more@) =~= table::rows(next@));
            let ghost added = more@;
            seen.append(&mut more);
            assert(table::rows(seen@) =~= table::rows(had) + table::rows(added));
            layer = next;
            depth += 1;
        }
        if depth < max_depth {
            proof {
                lemma_wave_stops(self@, seeds, depth as int, max_depth as int);
            }
        }
        seen
    }

    /// Breadth-first search from seed node IDs up to `max_depth` hops.
    /// Returns `(Node, degree)` pairs sorted by degree descending, capped at
    /// `token_budget`.
    pub fn bfs_neighbors(
        &self,
        seed_ids: &Vec<String>,
        max_depth: usize,
        token_budget: usize,
    ) -> (r: Vec<(Node, usize)>)
        ensures
            ({
                let found = nearest(
                    self@,
                    table::rows(seed_ids@),
                    max_depth as int,
                    token_budget as int,
                );
                degree_views(r@) == order::sorted_desc(found, degrees(found))
            }),
            is_walk_report(
                self@,
                table::rows(seed_ids@),
                max_depth as int,
                token_budget as int,
                degree_views(r@),
            ),
    {
        let ids = self.walk(seed_ids, max_depth);
        let ghost all = table::rows(ids@);
        let ghost full = reported(self@, all, all.len() as int);
        let n: usize = ids.len();
        let mut found: Vec<(Node, usize)> = Vec::new();
        let mut tokens: usize = 0;
        let mut done: bool = false;
        let mut i: usize = 0;
        assert(degree_views(found@) =~= Seq::empty());
        proof {
            lemma_cut_bounds(full, token_budget as int, 0);
        }
        while i < n && !done
            invariant
                i <= n == ids@.len(),
                all == table::rows(ids@),
                full == reported(self@, all, all.len() as int),
                0 <= cut_from(full, token_budget as int, 0) <= full.len(),
                degree_views(found@) == reported(self@, all, i as int),
                tokens == saturated(tokens_upto(degree_views(found@), found@.len() as int)),
                !done ==> cut_from(full, token_budget as int, 0) == cut_from(
                    full,
                    token_budget as int,
                    found@.len() as int,
                ),
                done ==> cut_from(full, token_budget as int, 0) == found@.len(),
            decreases n - i,
        {
            let id = ids[i].as_str();
            assert(all[i as int] == id@);
            if let Some(at) = self.node_at(id) {
                let ghost had = found@;
                let node = self.nodes[at].clone();
                let degree: usize = self.node_degree(id);
                let label = text::chars_of(node.label.as_str());
                tokens = tokens.saturating_add(text::byte_len(label.as_slice()) / 4 + 5);
                found.push((node, degree));
                assert(degree_views(found@) =~= degree_views(had).push((node@, degree)));
                proof {
                    lemma_reported_prefix(self@, all, i + 1, n as int);
                    assert(degree_views(found@).take(had.len() as int) =~= degree_views(had));
                    lemma_tokens_prefix(
                        degree_views(had),
                        degree_views(found@),
                        had.len() as int,
                    );
                    lemma_tokens_prefix(degree_views(found@), full, found@.len() as int);
                }
                if tokens >= token_budget {
                    done = true;
                }
            }
            i += 1;
        }
        proof {
            lemma_reported_prefix(self@, all, i as int, n as int);
        }
        let ghost near = nearest(
            self@,
            table::rows(seed_ids@),
            max_depth as int,
            token_budget as int,
        );
        assert(degree_views(found@) =~= near);
        let count: usize = found.len();
        let mut keys: Vec<i128> = Vec::new();
        let mut k: usize = 0;
        while k < count
            invariant
                k <= count == found@.len(),
                keys@.len() == k,
                forall|j: int|
                    0 <= j < k ==> (#[trigger] keys@[j]) == degrees(degree_views(found@))[j],
            decreases count - k,
        {
            keys.push(found[k].1 as i128);
            k += 1;
        }
        assert(order::key_ints(keys@) =~= degrees(near));
        let sorted = order::order_desc(&keys);
        let ghost full_sorted = order::sorted_desc(near, degrees(near));
        let mut out: Vec<(Node, usize)> = Vec::new();
        let mut m: usize = 0;
        assert(degree_views(out@) =~= full_sorted.take(0));
        while m < count
            invariant
                m <= count == found@.len() == sorted@.len() == full_sorted.len(),
                near == degree_views(found@),
                order::covers(order::ints(sorted@), 0, count as int),
                full_sorted == order::arranged(near, order::ints(sorted@)),
                degree_views(out@) == full_sorted.take(m as int),
            decreases count - m,
        {
            let ghost had = out@;
            assert(0 <= order::ints(sorted@)[m as int] < count);
            let at: usize = sorted[m];
            out.push((found[at].0.clone(), found[at].1));
            assert(degree_views(out@) =~= degree_views(had).push(full_sorted[m as int]));
            m += 1;
            assert(full_sorted.take(m as int) =~= full_sorted.take(m - 1).push(full_sorted[m - 1]));
        }
        assert(full_sorted.take(count as int) =~= full_sorted);
        proof {
            walk_reports_what_is_in_reach(
                self@,
                table::rows(seed_ids@),
                max_depth as int,
                token_budget as int,
            );
        }
        out
    }
}

/// A number as far as a machine word can tell.
pub open spec fn saturated(n: nat) -> usize {
    if n <= usize::MAX {
        n as usize
    } else {
        usize::MAX
    }
}

/// Nodes are reported one by one.
proof fn lemma_reported_prefix(store: DbView, ids: Seq<Seq<char>>, m: int, n: int)
    requires
        0 <= m <= n,
    ensures
        reported(store, ids, m).len() <= reported(store, ids, n).len(),
        reported(store, ids, n).take(reported(store, ids, m).len() as int) == reported(
            store,
            ids,
            m,
        ),
    decreases n,
{
    if m < n {
        lemma_reported_prefix(store, ids, m, n - 1);
        let short = reported(store, ids, m);
        let mid = reported(store, ids, n - 1);
        let long = reported(store, ids, n);
        assert(long.take(short.len() as int) =~= mid.take(short.len() as int));
    } else {
        let all = reported(store, ids, n);
        assert(all.take(all.len() as int) =~= all);
    }
}

/// Lists that begin alike use up the same tokens.
proof fn lemma_tokens_prefix(a: Seq<(NodeView, usize)>, b: Seq<(NodeView, usize)>, k: int)
    requires
        0 <= k <= a.len() <= b.len(),
        b.take(a.len() as int) == a,
    ensures
        tokens_upto(a, k) == tokens_upto(b, k),
    decreases k,
{
    if k > 0 {
        lemma_tokens_prefix(a, b, k - 1);
        assert(b.take(a.len() as int)[k - 1] == b[k - 1]);
    }
}

// ---------------------------------------------------------------------------
// Laws of neighbourhoods
// ---------------------------------------------------------------------------

/// Whether an identifier is one hop from a node that the graph holds.
pub open spec fn is_next_to(store: DbView, via: Seq<char>, id: Seq<char>) -> bool {
    has_node(store, via) && neighbors(store.edges, via).contains(id)
}

/// Whether an identifier is at most `depth` hops from a seed, by way of nodes
/// that the graph holds.
pub open spec fn reaches(store: DbView, seeds: Seq<Seq<char>>, id: Seq<char>, depth: int) -> bool
    decreases depth,
{
    if depth <= 0 {
        seeds.contains(id)
    } else {
        reaches(store, seeds, id, depth - 1) || exists|via: Seq<char>| #[trigger]
            is_next_to(store, via, id) && reaches(store, seeds, via, depth - 1)
    }
}

/// What is fresh is listed, has not been seen and occurs once.
proof fn lemma_fresh(seen: Seq<Seq<char>>, ids: Seq<Seq<char>>)
    ensures
        fresh(seen, ids).no_duplicates(),
        forall|x: Seq<char>| #[trigger]
            fresh(seen, ids).contains(x) <==> ids.contains(x) && !seen.contains(x),
    decreases ids.len(),
{
    if ids.len() > 0 {
        let front = ids.drop_last();
        lemma_fresh(seen, front);
        let before = fresh(seen, front);
        let now = fresh(seen, ids);
        assert forall|x: Seq<char>| #[trigger] now.contains(x) <==> ids.contains(x)
            && !seen.contains(x) by {
            assert(before.contains(x) <==> front.contains(x) && !seen.contains(x));
            if now.contains(x) {
                let k = choose|k: int| 0 <= k < now.len() && now[k] == x;
                if k < before.len() {
                    assert(before[k] == x);
                    let j = choose|j: int| 0 <= j < front.len() && front[j] == x;
                    assert(ids[j] == x);
                } else {
                    assert(ids[ids.len() - 1] == x);
                }
            }
            if ids.contains(x) && !seen.contains(x) {
                let j = choose|j: int| 0 <= j < ids.len() && ids[j] == x;
                if j < front.len() {
                    assert(front[j] == x);
                }
                if before.contains(x) {
                    let k = choose|k: int| 0 <= k < before.len() && before[k] == x;
                    assert(now[k] == x);
                } else {
                    assert(now[now.len() - 1] == x);
                }
            }
        }
    }
}

/// What lies around a layer lies next to one of its nodes.
proof fn lemma_around(store: DbView, layer: Seq<Seq<char>>, n: int, x: Seq<char>)
    requires
        0 <= n <= layer.len(),
    ensures
        around(store, layer, n).contains(x) <==> exists|k: int|
            0 <= k < n && has_node(store, #[trigger] layer[k]) && neighbors(
                store.edges,
                layer[k],
            ).contains(x),
    decreases n,
{
    if n > 0 {
        lemma_around(store, layer, n - 1, x);
        let before = around(store, layer, n - 1);
        let next = neighbors(store.edges, layer[n - 1]);
        let now = around(store, layer, n);
        if now.contains(x) {
            let k = choose|k: int| 0 <= k < now.len() && now[k] == x;
            if k < before.len() {
                assert(before[k] == x);
            } else {
                assert(next[k - before.len()] == x);
                assert(has_node(store, layer[n - 1]));
            }
        }
        if before.contains(x) {
            let k = choose|k: int| 0 <= k < before.len() && before[k] == x;
            assert(now[k] == x);
        }
        if has_node(store, layer[n - 1]) && next.contains(x) {
            let k = choose|k: int| 0 <= k < next.len() && next[k] == x;
            assert(now[before.len() + k] == x);
        }
    }
}

/// The neighbours of what was met before the last hop have been met.
proof fn lemma_wave_closed(
    store: DbView,
    seeds: Seq<Seq<char>>,
    depth: int,
    via: Seq<char>,
    x: Seq<char>,
)
    requires
        depth >= 1,
        wave(store, seeds, depth - 1).seen.contains(via),
        has_node(store, via),
        neighbors(store.edges, via).contains(x),
    ensures
        wave(store, seeds, depth).seen.contains(x),
    decreases depth,
{
    let last = wave(store, seeds, depth - 1);
    let now = wave(store, seeds, depth);
    let near = around(store, last.layer, last.layer.len() as int);
    lemma_fresh(last.seen, near);
    if last.layer.contains(via) {
        let k = choose|k: int| 0 <= k < last.layer.len() && last.layer[k] == via;
        lemma_around(store, last.layer, last.layer.len() as int, x);
        assert(near.contains(x));
        if last.seen.contains(x) {
            let j = choose|j: int| 0 <= j < last.seen.len() && last.seen[j] == x;
            assert(now.seen[j] == x);
        } else {
            assert(now.layer.contains(x));
            let j = choose|j: int| 0 <= j < now.layer.len() && now.layer[j] == x;
            assert(now.seen[last.seen.len() + j] == x);
        }
    } else {
        let first = wave(store, seeds, depth - 2);
        let j = choose|j: int| 0 <= j < last.seen.len() && last.seen[j] == via;
        if j >= first.seen.len() {
            assert(last.layer[j - first.seen.len()] == via);
        }
        assert(first.seen[j] == via);
        lemma_wave_closed(store, seeds, depth - 1, via, x);
        let k = choose|k: int| 0 <= k < last.seen.len() && last.seen[k] == x;
        assert(now.seen[k] == x);
    }
}

/// A walk meets exactly what is within reach, whatever the depth.
pub proof fn walk_meets_what_is_in_reach(
    store: DbView,
    seeds: Seq<Seq<char>>,
    depth: int,
    x: Seq<char>,
)
    requires
        depth >= 0,
    ensures
        wave(store, seeds, depth).seen.contains(x) <==> reaches(store, seeds, x, depth),
    decreases depth,
{
    let now = wave(store, seeds, depth);
    if depth == 0 {
        lemma_fresh(Seq::empty(), seeds);
        assert(!Seq::<Seq<char>>::empty().contains(x));
        assert(now.seen.contains(x) <==> seeds.contains(x));
    } else {
        let last = wave(store, seeds, depth - 1);
        let near = around(store, last.layer, last.layer.len() as int);
        walk_meets_what_is_in_reach(store, seeds, depth - 1, x);
        lemma_fresh(last.seen, near);
        lemma_around(store, last.layer, last.layer.len() as int, x);
        if now.seen.contains(x) {
            let j = choose|j: int| 0 <= j < now.seen.len() && now.seen[j] == x;
            if j < last.seen.len() {
                assert(last.seen[j] == x);
            } else {
                assert(now.layer[j - last.seen.len()] == x);
                assert(fresh(last.seen, near).contains(x));
                let k = choose|k: int|
                    0 <= k < last.layer.len() && has_node(store, #[trigger] last.layer[k])
                        && neighbors(store.edges, last.layer[k]).contains(x);
                lemma_layer_seen(store, seeds, depth - 1, k);
                walk_meets_what_is_in_reach(store, seeds, depth - 1, last.layer[k]);
                assert(is_next_to(store, last.layer[k], x));
            }
        }
        if reaches(store, seeds, x, depth) {
            if reaches(store, seeds, x, depth - 1) {
                let j = choose|j: int| 0 <= j < last.seen.len() && last.seen[j] == x;
                assert(now.seen[j] == x);
            } else {
                let via = choose|via: Seq<char>| #[trigger]
                    is_next_to(store, via, x) && reaches(store, seeds, via, depth - 1);
                walk_meets_what_is_in_reach(store, seeds, depth - 1, via);
                lemma_wave_closed(store, seeds, depth, via, x);
            }
        }
    }
}

/// What was met last has been met.
proof fn lemma_layer_seen(store: DbView, seeds: Seq<Seq<char>>, depth: int, k: int)
    requires
        0 <= k < wave(store, seeds, depth).layer.len(),
    ensures
        wave(store, seeds, depth).seen.contains(wave(store, seeds, depth).layer[k]),
{
    let now = wave(store, seeds, depth);
    if depth <= 0 {
        assert(now.seen[k] == now.layer[k]);
    } else {
        let last = wave(store, seeds, depth - 1);
        assert(now.seen[last.seen.len() + k] == now.layer[k]);
    }
}

/// A walk meets everything once, and the nearer things first: a deeper walk
/// begins like a shallower one.
pub proof fn walk_meets_the_nearest_first(
    store: DbView,
    seeds: Seq<Seq<char>>,
    depth: int,
    deeper: int,
)
    requires
        0 <= depth <= deeper,
    ensures
        wave(store, seeds, deeper).seen.no_duplicates(),
        wave(store, seeds, depth).seen.len() <= wave(store, seeds, deeper).seen.len(),
        wave(store, seeds, deeper).seen.take(wave(store, seeds, depth).seen.len() as int) == wave(
            store,
            seeds,
            depth,
        ).seen,
    decreases deeper,
{
    let now = wave(store, seeds, deeper);
    if deeper == 0 {
        lemma_fresh(Seq::empty(), seeds);
        assert(now.seen.take(now.seen.len() as int) =~= now.seen);
    } else {
        let last = wave(store, seeds, deeper - 1);
        lemma_fresh(last.seen, around(store, last.layer, last.layer.len() as int));
        if depth < deeper {
            walk_meets_the_nearest_first(store, seeds, depth, deeper - 1);
            let near = wave(store, seeds, depth).seen;
            assert(now.seen.take(near.len() as int) =~= last.seen.take(near.len() as int));
        } else {
            walk_meets_the_nearest_first(store, seeds, deeper - 1, deeper - 1);
            assert(now.seen.take(now.seen.len() as int) =~= now.seen);
        }
        assert forall|i: int, j: int|
            0 <= i < now.seen.len() && 0 <= j < now.seen.len() && i != j implies now.seen[i]
            != now.seen[j] by {
            let n = last.seen.len();
            if i < n && j >= n {
                assert(now.layer.contains(now.layer[j - n]));
                assert(last.seen.contains(last.seen[i]));
            }
            if j < n && i >= n {
                assert(now.layer.contains(now.layer[i - n]));
                assert(last.seen.contains(last.seen[j]));
            }
        }
    }
}

/// The budget cuts a report short only once it is used up: what is reported
/// before the last node fits into the budget, and where the report stops short
/// of what was found, the budget is used up.
pub proof fn budget_is_used_up_before_the_cut(found: Seq<(NodeView, usize)>, budget: int)
    ensures
        ({
            let cut = cut_from(found, budget, 0);
            &&& 0 <= cut <= found.len()
            &&& found.len() > 0 ==> cut > 0
            &&& cut < found.len() ==> tokens_upto(found, cut) >= budget
            &&& forall|k: int| 0 < k < cut ==> #[trigger] tokens_upto(found, k) < budget
        }),
{
    lemma_cut_bounds(found, budget, 0);
    lemma_cut(found, budget, 0);
}

proof fn lemma_cut(found: Seq<(NodeView, usize)>, budget: int, k: int)
    requires
        0 <= k <= found.len(),
    ensures
        ({
            let cut = cut_from(found, budget, k);
            &&& k < found.len() ==> cut > k
            &&& cut < found.len() ==> tokens_upto(found, cut) >= budget
            &&& forall|j: int| k < j < cut ==> #[trigger] tokens_upto(found, j) < budget
        }),
    decreases found.len() - k,
{
    if k < found.len() && tokens_upto(found, k + 1) < budget {
        lemma_cut_bounds(found, budget, k + 1);
        lemma_cut(found, budget, k + 1);
    }
}

/// A ranking by degree holds what was found, the most connected nodes first.
pub proof fn ranking_is_by_degree(found: Seq<(NodeView, usize)>)
    ensures
        ({
            let ranked = order::sorted_desc(found, degrees(found));
            &&& ranked.len() == found.len()
            &&& forall|i: int, j: int|
                0 <= i < j < ranked.len() ==> (#[trigger] ranked[i]).1 >= (#[trigger] ranked[j]).1
            &&& forall|x: (NodeView, usize)| #[trigger] ranked.contains(x) <==> found.contains(x)
        }),
{
    let ranked = order::sorted_desc(found, degrees(found));
    let r = order::the_order(found.len() as int, order::by_key_desc(degrees(found)));
    order::sorting_is_stable(found, degrees(found));
    assert forall|i: int, j: int| 0 <= i < j < ranked.len() implies (#[trigger] ranked[i]).1 >= (
    #[trigger] ranked[j]).1 by {
        assert(0 <= r[i] < found.len() && 0 <= r[j] < found.len());
    }
    assert forall|x: (NodeView, usize)| #[trigger]
        ranked.contains(x) <==> found.contains(x) by {
        if ranked.contains(x) {
            let i = choose|i: int| 0 <= i < ranked.len() && ranked[i] == x;
            assert(0 <= r[i] < found.len());
            assert(found[r[i]] == x);
        }
        if found.contains(x) {
            let k = choose|k: int| 0 <= k < found.len() && found[k] == x;
            assert(r.contains(k));
            let i = choose|i: int| 0 <= i < r.len() && r[i] == k;
            assert(ranked[i] == x);
        }
    }
}

// ---------------------------------------------------------------------------
// What a walk reports
// ---------------------------------------------------------------------------

/// Whether the graph holds a node with the identifier.
pub open spec fn is_stored(nodes: Seq<NodeView>, id: Seq<char>) -> bool {
    exists|i: int| 0 <= i < nodes.len() && (#[trigger] nodes[i]).id == id
}

/// Whether `n` is what the graph holds under its identifier.
pub open spec fn is_held(nodes: Seq<NodeView>, n: NodeView) -> bool {
    exists|i: int|
        0 <= i < nodes.len() && #[trigger] nodes[i] == n && forall|j: int|
            0 <= j < i ==> (#[trigger] nodes[j]).id != n.id
}

/// Whether an edge runs between two identifiers, in either direction.
pub open spec fn is_joined(edges: Seq<EdgeView>, a: Seq<char>, b: Seq<char>) -> bool {
    exists|i: int|
        0 <= i < edges.len() && (((#[trigger] edges[i]).source == a && edges[i].target == b) || (
        edges[i].source == b && edges[i].target == a))
}

/// Whether one can go from `a` to `b` in one hop: the graph holds `a`, and an edge
/// runs between the two.
pub open spec fn is_hop(store: DbView, a: Seq<char>, b: Seq<char>) -> bool {
    is_stored(store.nodes, a) && is_joined(store.edges, a, b)
}

/// Whether a list of identifiers leads from a seed from hop to hop.
pub open spec fn is_route(store: DbView, seeds: Seq<Seq<char>>, route: Seq<Seq<char>>) -> bool {
    &&& route.len() > 0
    &&& seeds.contains(route[0])
    &&& forall|i: int, j: int|
        0 <= i && j == i + 1 && j < route.len() ==> is_hop(
            store,
            #[trigger] route[i],
            #[trigger] route[j],
        )
}

/// Whether a route of at most `hops` hops leads from a seed to the identifier.
pub open spec fn is_within(
    store: DbView,
    seeds: Seq<Seq<char>>,
    id: Seq<char>,
    hops: int,
) -> bool {
    exists|route: Seq<Seq<char>>| #[trigger]
        is_route(store, seeds, route) && route.last() == id && route.len() <= hops + 1
}

/// How often the first `n` edges begin or end at a node.
pub open spec fn ends_at(edges: Seq<EdgeView>, id: Seq<char>, n: int) -> nat
    decreases n,
{
    if n <= 0 {
        0
    } else {
        let leaving: nat = if edges[n - 1].source == id {
            1
        } else {
            0
        };
        let entering: nat = if edges[n - 1].target == id {
            1
        } else {
            0
        };
        ends_at(edges, id, n - 1) + leaving + entering
    }
}

/// The tokens that a report takes: for each node a quarter of the bytes of its
/// label, and five.
pub open spec fn spent(found: Seq<(NodeView, usize)>) -> nat
    decreases found.len(),
{
    if found.len() == 0 {
        0
    } else {
        spent(found.drop_last()) + text::utf8_len(found.last().0.label) / 4 + 5
    }
}

/// Whether some entry is for the identifier.
pub open spec fn reports(found: Seq<(NodeView, usize)>, id: Seq<char>) -> bool {
    exists|k: int| 0 <= k < found.len() && (#[trigger] found[k]).0.id == id
}

/// Whether `found` is the report on a walk of at most `hops` hops from the seeds
/// that stops once `budget` tokens are spent.
pub open spec fn is_walk_report(
    store: DbView,
    seeds: Seq<Seq<char>>,
    hops: int,
    budget: int,
    found: Seq<(NodeView, usize)>,
) -> bool {
    // Each entry is a node of the graph within reach, with as many links as it has.
    &&& forall|k: int|
        0 <= k < found.len() ==> is_held(store.nodes, (#[trigger] found[k]).0) && is_within(
            store,
            seeds,
            found[k].0.id,
            hops,
        ) && found[k].1 == saturated(
            ends_at(store.edges, found[k].0.id, store.edges.len() as int),
        )
    // No node is listed twice, and those with more links come first.
    &&& forall|a: int, b: int|
        0 <= a < b < found.len() ==> (#[trigger] found[a]).0.id != (#[trigger] found[b]).0.id
            && found[a].1 >= found[b].1
    // Where the budget is not used up, no node within reach is left out.
    &&& spent(found) < budget ==> forall|id: Seq<char>|
        is_stored(store.nodes, id) && #[trigger] is_within(store, seeds, id, hops) ==> reports(
            found,
            id,
        )
    // Nothing is listed after the budget is used up.
    &&& found.len() > 1 ==> exists|k: int|
        0 <= k < found.len() && spent(#[trigger] found.remove(k)) < budget
    // What is left out is no nearer than what is listed, and something is listed.
    &&& forall|id: Seq<char>, fewer: int|
        0 <= fewer <= hops && is_stored(store.nodes, id) && #[trigger] is_within(
            store,
            seeds,
            id,
            fewer,
        ) && !reports(found, id) ==> found.len() > 0 && forall|k: int|
            0 <= k < found.len() ==> is_within(store, seeds, (#[trigger] found[k]).0.id, fewer)
}

/// The graph holds a node under an identifier iff one of its nodes has it.
pub proof fn lemma_has_node(store: DbView, id: Seq<char>)
    ensures
        has_node(store, id) <==> is_stored(store.nodes, id),
        has_node(store, id) ==> node_of(store, id).id == id && is_held(
            store.nodes,
            node_of(store, id),
        ),
{
    let p = db::node_has_id(id);
    table::lemma_first_from(store.nodes, p, 0);
    if is_stored(store.nodes, id) {
        let i = choose|i: int| 0 <= i < store.nodes.len() && (#[trigger] store.nodes[i]).id == id;
        assert(p(store.nodes[i]));
    }
    if let Some(k) = table::first_where(store.nodes, p) {
        assert(store.nodes[k].id == id);
        assert forall|j: int| 0 <= j < k implies (#[trigger] store.nodes[j]).id != id by {
            assert(!p(store.nodes[j]));
        }
    }
}

/// The neighbours of a node are what an edge joins it to.
proof fn lemma_neighbors(edges: Seq<EdgeView>, a: Seq<char>, b: Seq<char>)
    ensures
        neighbors(edges, a).contains(b) <==> is_joined(edges, a, b),
{
    let out = edges.filter(db::edge_from(a));
    let into = edges.filter(db::edge_to(a));
    let first = ends(db::links_from(edges, a));
    let second = ends(db::links_to(edges, a));
    let all = neighbors(edges, a);
    table::lemma_filter_holds(edges, db::edge_from(a));
    table::lemma_filter_holds(edges, db::edge_to(a));
    if all.contains(b) {
        let k = choose|k: int| 0 <= k < all.len() && all[k] == b;
        if k < first.len() {
            assert(all[k] == first[k] && first[k] == out[k].target);
            assert(out.contains(out[k]));
            assert(db::edge_from(a)(out[k]));
            let i = choose|i: int| 0 <= i < edges.len() && edges[i] == out[k];
            assert(edges[i].source == a && edges[i].target == b);
        } else {
            let m = k - first.len();
            assert(all[k] == second[m] && second[m] == into[m].source);
            assert(into.contains(into[m]));
            assert(db::edge_to(a)(into[m]));
            let i = choose|i: int| 0 <= i < edges.len() && edges[i] == into[m];
            assert(edges[i].target == a && edges[i].source == b);
        }
    }
    if is_joined(edges, a, b) {
        let i = choose|i: int|
            0 <= i < edges.len() && (((#[trigger] edges[i]).source == a && edges[i].target == b)
                || (edges[i].source == b && edges[i].target == a));
        let e = edges[i];
        assert(edges.contains(e));
        if e.source == a && e.target == b {
            assert(db::edge_from(a)(e));
            assert(out.contains(e));
            let k = choose|k: int| 0 <= k < out.len() && out[k] == e;
            assert(first[k] == b);
            assert(all[k] == b);
        } else {
            assert(db::edge_to(a)(e));
            assert(into.contains(e));
            let k = choose|k: int| 0 <= k < into.len() && into[k] == e;
            assert(second[k] == b);
            assert(all[first.len() + k] == b);
        }
    }
}

/// One hop leads to what is next to a node.
proof fn lemma_hop(store: DbView, a: Seq<char>, b: Seq<char>)
    ensures
        is_next_to(store, a, b) <==> is_hop(store, a, b),
{
    lemma_has_node(store, a);
    lemma_neighbors(store.edges, a, b);
}

/// What is reached in fewer hops is reached.
proof fn lemma_reaches_more(
    store: DbView,
    seeds: Seq<Seq<char>>,
    id: Seq<char>,
    fewer: int,
    hops: int,
)
    requires
        0 <= fewer <= hops,
        reaches(store, seeds, id, fewer),
    ensures
        reaches(store, seeds, id, hops),
    decreases hops,
{
    if fewer < hops {
        lemma_reaches_more(store, seeds, id, fewer, hops - 1);
    }
}

/// A route leads to what is reached.
proof fn lemma_route(store: DbView, seeds: Seq<Seq<char>>, route: Seq<Seq<char>>, hops: int)
    requires
        is_route(store, seeds, route),
        route.len() <= hops + 1,
    ensures
        reaches(store, seeds, route.last(), hops),
    decreases route.len(),
{
    if route.len() == 1 {
        lemma_reaches_more(store, seeds, route[0], 0, hops);
    } else {
        let front = route.drop_last();
        assert forall|i: int, j: int| 0 <= i && j == i + 1 && j < front.len() implies is_hop(
            store,
            #[trigger] front[i],
            #[trigger] front[j],
        ) by {
            assert(is_hop(store, route[i], route[j]));
        }
        lemma_route(store, seeds, front, hops - 1);
        let n = route.len();
        assert(is_hop(store, route[n - 2], route[n - 1]));
        lemma_hop(store, front.last(), route.last());
        assert(is_next_to(store, front.last(), route.last()));
    }
}

/// Being in reach is being at the end of a route.
proof fn lemma_within(store: DbView, seeds: Seq<Seq<char>>, id: Seq<char>, hops: int)
    requires
        hops >= 0,
    ensures
        reaches(store, seeds, id, hops) <==> is_within(store, seeds, id, hops),
    decreases hops,
{
    if is_within(store, seeds, id, hops) {
        let route = choose|route: Seq<Seq<char>>| #[trigger]
            is_route(store, seeds, route) && route.last() == id && route.len() <= hops + 1;
        lemma_route(store, seeds, route, hops);
    }
    if reaches(store, seeds, id, hops) {
        if hops == 0 {
            let route = seq![id];
            assert(is_route(store, seeds, route));
            assert(route.last() == id);
        } else if reaches(store, seeds, id, hops - 1) {
            lemma_within(store, seeds, id, hops - 1);
            let route = choose|route: Seq<Seq<char>>| #[trigger]
                is_route(store, seeds, route) && route.last() == id && route.len() <= hops;
            assert(is_route(store, seeds, route));
        } else {
            let via = choose|via: Seq<char>| #[trigger]
                is_next_to(store, via, id) && reaches(store, seeds, via, hops - 1);
            lemma_within(store, seeds, via, hops - 1);
            lemma_hop(store, via, id);
            let front = choose|route: Seq<Seq<char>>| #[trigger]
                is_route(store, seeds, route) && route.last() == via && route.len() <= hops;
            let route = front.push(id);
            assert forall|i: int, j: int| 0 <= i && j == i + 1 && j < route.len() implies is_hop(
                store,
                #[trigger] route[i],
                #[trigger] route[j],
            ) by {
                if j < front.len() {
                    assert(is_hop(store, front[i], front[j]));
                } else {
                    assert(route[i] == via);
                }
            }
            assert(is_route(store, seeds, route));
            assert(route.last() == id);
        }
    }
}

/// A degree counts the ends of edges at the node.
pub proof fn degrees_count_the_links(edges: Seq<EdgeView>, id: Seq<char>)
    ensures
        table::count_where(edges, db::edge_from(id)) + table::count_where(edges, db::edge_to(id))
            == ends_at(edges, id, edges.len() as int),
        db::degree_of(edges, id) == saturated(ends_at(edges, id, edges.len() as int)),
    decreases edges.len(),
{
    reveal(Seq::filter);
    if edges.len() > 0 {
        let front = edges.drop_last();
        degrees_count_the_links(front, id);
        lemma_ends_same(front, edges, id, front.len() as int);
    }
}

/// Lists of edges that begin alike end at a node equally often.
proof fn lemma_ends_same(a: Seq<EdgeView>, b: Seq<EdgeView>, id: Seq<char>, n: int)
    requires
        n <= a.len() <= b.len(),
        b.take(a.len() as int) == a,
    ensures
        ends_at(a, id, n) == ends_at(b, id, n),
    decreases n,
{
    if n > 0 {
        lemma_ends_same(a, b, id, n - 1);
        assert(b.take(a.len() as int)[n - 1] == b[n - 1]);
    }
}

/// The identifier that an entry of a report stands for.
proof fn lemma_reported_at(store: DbView, ids: Seq<Seq<char>>, n: int, k: int) -> (j: int)
    requires
        0 <= k < reported(store, ids, n).len(),
        n <= ids.len(),
    ensures
        0 <= j < n,
        has_node(store, ids[j]),
        reported(store, ids, j).len() == k,
        reported(store, ids, n)[k] == (
            node_of(store, ids[j]),
            db::degree_of(store.edges, ids[j]),
        ),
    decreases n,
{
    if k < reported(store, ids, n - 1).len() {
        lemma_reported_at(store, ids, n - 1, k)
    } else {
        n - 1
    }
}

/// The entry of an identifier among those of more identifiers.
proof fn lemma_reported_entry(store: DbView, ids: Seq<Seq<char>>, n: int, j: int)
    requires
        0 <= j < n <= ids.len(),
        has_node(store, ids[j]),
    ensures
        ({
            let k = reported(store, ids, j).len();
            &&& k < reported(store, ids, n).len()
            &&& reported(store, ids, n)[k as int] == (
                node_of(store, ids[j]),
                db::degree_of(store.edges, ids[j]),
            )
        }),
{
    lemma_reported_prefix(store, ids, j + 1, n);
    let short = reported(store, ids, j + 1);
    let k = reported(store, ids, j).len() as int;
    assert(short.len() == k + 1);
    assert(reported(store, ids, n).take(short.len() as int)[k] == reported(store, ids, n)[k]);
}

/// What is spent on a report is spent node by node.
proof fn lemma_spent(found: Seq<(NodeView, usize)>, k: int)
    requires
        0 <= k <= found.len(),
    ensures
        tokens_upto(found, k) == spent(found.take(k)),
    decreases k,
{
    if k > 0 {
        lemma_spent(found, k - 1);
        assert(found.take(k).drop_last() =~= found.take(k - 1));
    }
}

/// Leaving an entry out saves what it takes.
proof fn lemma_spent_without(found: Seq<(NodeView, usize)>, k: int)
    requires
        0 <= k < found.len(),
    ensures
        spent(found) == spent(found.remove(k)) + text::utf8_len(found[k].0.label) / 4 + 5,
    decreases found.len(),
{
    let last = found.len() - 1;
    if k == last {
        assert(found.remove(k) =~= found.drop_last());
    } else {
        let front = found.drop_last();
        lemma_spent_without(front, k);
        assert(found.remove(k).drop_last() =~= front.remove(k));
    }
}

/// An order of indices without the greatest one is an order of the others.
proof fn lemma_order_without(r: Seq<int>, n: int, p: int)
    requires
        order::covers(r, 0, n),
        n > 0,
        0 <= p < r.len(),
        r[p] == n - 1,
    ensures
        order::covers(r.remove(p), 0, n - 1),
        forall|a: int| 0 <= a < r.remove(p).len() ==> #[trigger] r.remove(p)[a] < n - 1,
{
    let rest = r.remove(p);
    order::lemma_indices_once(r, n);
    assert forall|a: int| 0 <= a < rest.len() implies 0 <= #[trigger] rest[a] < n - 1 by {
        if a < p {
            assert(rest[a] == r[a]);
        } else {
            assert(rest[a] == r[a + 1]);
        }
    }
    assert forall|i: int| 0 <= i < n - 1 implies #[trigger] rest.contains(i) by {
        assert(r.contains(i));
        let a = choose|a: int| 0 <= a < r.len() && r[a] == i;
        if a < p {
            assert(rest[a] == i);
        } else {
            assert(rest[a - 1] == i);
        }
    }
}

/// What a report takes does not depend on its order.
proof fn lemma_spent_arranged(found: Seq<(NodeView, usize)>, r: Seq<int>)
    requires
        order::covers(r, 0, found.len() as int),
    ensures
        spent(order::arranged(found, r)) == spent(found),
    decreases found.len(),
{
    let n = found.len() as int;
    if n > 0 {
        assert(r.contains(n - 1));
        let p = choose|p: int| 0 <= p < r.len() && r[p] == n - 1;
        let rest = r.remove(p);
        lemma_order_without(r, n, p);
        let front = found.drop_last();
        lemma_spent_arranged(front, rest);
        let ranked = order::arranged(found, r);
        lemma_spent_without(ranked, p);
        assert(ranked.remove(p) =~= order::arranged(front, rest)) by {
            assert forall|a: int| 0 <= a < rest.len() implies ranked.remove(p)[a]
                == order::arranged(front, rest)[a] by {
                assert(rest[a] < n - 1);
                if a < p {
                    assert(rest[a] == r[a]);
                } else {
                    assert(rest[a] == r[a + 1]);
                }
            }
        }
    }
}

/// A walk reports the nodes within reach: each with as many links as it has, each
/// once, the most linked first, and none is left out, of whatever kind, unless the
/// budget is used up. What is then left out is no nearer than what is reported.
pub proof fn walk_reports_what_is_in_reach(
    store: DbView,
    seeds: Seq<Seq<char>>,
    hops: int,
    budget: int,
)
    requires
        hops >= 0,
    ensures
        ({
            let found = nearest(store, seeds, hops, budget);
            is_walk_report(store, seeds, hops, budget, order::sorted_desc(found, degrees(found)))
        }),
{
    let ids = wave(store, seeds, hops).seen;
    let n = ids.len() as int;
    let full = reported(store, ids, n);
    let cut = cut_from(full, budget, 0);
    let near = full.take(cut);
    let ranked = order::sorted_desc(near, degrees(near));
    let r = order::the_order(near.len() as int, order::by_key_desc(degrees(near)));
    budget_is_used_up_before_the_cut(full, budget);
    walk_meets_the_nearest_first(store, seeds, hops, hops);
    order::sorting_is_stable(near, degrees(near));
    ranking_is_by_degree(near);
    order::lemma_indices_once(r, near.len() as int);
    lemma_spent_arranged(near, r);
    lemma_spent(full, cut);
    assert forall|k: int| 0 <= k < ranked.len() implies is_held(
        store.nodes,
        (#[trigger] ranked[k]).0,
    ) && is_within(store, seeds, ranked[k].0.id, hops) && ranked[k].1 == saturated(
        ends_at(store.edges, ranked[k].0.id, store.edges.len() as int),
    ) by {
        let j = lemma_reported_at(store, ids, n, r[k]);
        assert(ranked[k] == full[r[k]]);
        lemma_has_node(store, ids[j]);
        degrees_count_the_links(store.edges, ids[j]);
        assert(ids.contains(ids[j]));
        walk_meets_what_is_in_reach(store, seeds, hops, ids[j]);
        lemma_within(store, seeds, ids[j], hops);
    }
    assert forall|a: int, b: int| 0 <= a < b < ranked.len() implies (#[trigger] ranked[a]).0.id
        != (#[trigger] ranked[b]).0.id && ranked[a].1 >= ranked[b].1 by {
        let i = lemma_reported_at(store, ids, n, r[a]);
        let j = lemma_reported_at(store, ids, n, r[b]);
        assert(r[a] != r[b]);
        assert(i != j);
        assert(ids[i] != ids[j]);
        lemma_has_node(store, ids[i]);
        lemma_has_node(store, ids[j]);
    }
    if ranked.len() > 1 {
        assert(r.contains(near.len() - 1));
        let p = choose|p: int| 0 <= p < r.len() && r[p] == near.len() - 1;
        lemma_spent_without(ranked, p);
        lemma_spent_without(near, near.len() - 1);
        assert(near.remove(near.len() - 1) =~= full.take(cut - 1));
        lemma_spent(full, cut - 1);
        assert(tokens_upto(full, cut - 1) < budget);
        assert(ranked[p] == near[near.len() - 1]);
        assert(spent(ranked.remove(p)) < budget);
    }
    assert forall|id: Seq<char>, fewer: int|
        0 <= fewer <= hops && is_stored(store.nodes, id) && #[trigger] is_within(
            store,
            seeds,
            id,
            fewer,
        ) && !reports(ranked, id) implies spent(ranked) >= budget && ranked.len() > 0 && forall|
        k: int,
    |
        0 <= k < ranked.len() ==> is_within(store, seeds, (#[trigger] ranked[k]).0.id, fewer) by {
        lemma_within(store, seeds, id, fewer);
        walk_meets_what_is_in_reach(store, seeds, fewer, id);
        walk_meets_the_nearest_first(store, seeds, fewer, hops);
        let close = wave(store, seeds, fewer).seen;
        let j = choose|j: int| 0 <= j < close.len() && close[j] == id;
        assert(ids.take(close.len() as int)[j] == ids[j]);
        lemma_has_node(store, id);
        lemma_reported_entry(store, ids, n, j);
        let at = reported(store, ids, j).len() as int;
        if at < cut {
            assert(r.contains(at));
            let p = choose|p: int| 0 <= p < r.len() && r[p] == at;
            assert(ranked[p] == full[at]);
            assert(ranked[p].0.id == id);
            assert(reports(ranked, id));
        }
        assert(at >= cut);
        assert(cut < full.len());
        assert forall|k: int| 0 <= k < ranked.len() implies is_within(
            store,
            seeds,
            (#[trigger] ranked[k]).0.id,
            fewer,
        ) by {
            let i = lemma_reported_at(store, ids, n, r[k]);
            assert(ranked[k] == full[r[k]]);
            assert(i < j) by {
                if j <= i {
                    lemma_reported_prefix(store, ids, j, i);
                }
            }
            assert(ids.take(close.len() as int)[i] == ids[i]);
            assert(close.contains(ids[i]));
            lemma_has_node(store, ids[i]);
            walk_meets_what_is_in_reach(store, seeds, fewer, ids[i]);
            lemma_within(store, seeds, ids[i], fewer);
        }
    }
    assert(spent(ranked) < budget ==> forall|id: Seq<char>|
        is_stored(store.nodes, id) && #[trigger] is_within(store, seeds, id, hops) ==> reports(
            ranked,
            id,
        ));
}

} // verus!
