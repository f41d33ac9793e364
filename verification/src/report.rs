//! The most connected nodes of the graph, and the report on the graph.

use vstd::prelude::*;

use crate::db;
use crate::db::{Db, DbView};
use crate::graph;
use crate::graph::{GodNode, GraphStats, NodeView};
use crate::order;
use crate::reads;
use crate::text;
use crate::traverse;

verus! {

/// Those of the first `n` nodes that have edges, with their degrees.
pub open spec fn connected(store: DbView, n: int) -> Seq<(NodeView, usize)>
    decreases n,
{
    if n <= 0 {
        Seq::empty()
    } else {
        let before = connected(store, n - 1);
        let node = store.nodes[n - 1];
        let degree = db::degree_of(store.edges, node.id);
        if degree == 0 {
            before
        } else {
            before.push((node, degree))
        }
    }
}

/// The nodes that have edges, the most connected first.
pub open spec fn hubs(store: DbView) -> Seq<(NodeView, usize)> {
    let found = connected(store, store.nodes.len() as int);
    order::sorted_desc(found, traverse::degrees(found))
}

/// The contents of a list of hubs.
pub open spec fn hub_views(v: Seq<GodNode>) -> Seq<(NodeView, usize)> {
    Seq::new(v.len(), |i: int| (v[i].node@, v[i].degree))
}

/// A line of the report: a node's degree, kind and label.
pub open spec fn hub_line(hub: (NodeView, usize)) -> Seq<char> {
    "  "@ + text::padded_left(text::decimal(hub.1 as nat), 4) + "  "@ + text::padded_right(
        graph::kind_name(hub.0.kind),
        12,
    ) + "  "@ + hub.0.label + "\n"@
}

/// The lines of the first `n` hubs.
pub open spec fn hub_lines(top: Seq<(NodeView, usize)>, n: int) -> Seq<char>
    decreases n,
{
    if n <= 0 {
        Seq::empty()
    } else {
        hub_lines(top, n - 1) + hub_line(top[n - 1])
    }
}

/// The counts of the report.
pub open spec fn report_head(s: GraphStats) -> Seq<char> {
    "# Knowledge Graph Report\n\n"@ + "Nodes  : "@ + text::decimal(s.total_nodes as nat)
        + "  (documents: "@ + text::decimal(s.doc_nodes as nat) + ", wikilinks: "@ + text::decimal(
        s.wikilink_nodes as nat,
    ) + ", tags: "@ + text::decimal(s.tag_nodes as nat) + ")\n"@ + "Edges  : "@ + text::decimal(
        s.total_edges as nat,
    ) + "  (extracted: "@ + text::decimal(s.extracted_edges as nat) + ", inferred: "@
        + text::decimal(s.inferred_edges as nat) + ", ambiguous: "@ + text::decimal(
        s.ambiguous_edges as nat,
    ) + ")\n\n"@
}

/// The text of a report with the given counts and most connected nodes.
pub open spec fn report_text(s: GraphStats, top: Seq<(NodeView, usize)>) -> Seq<char> {
    let listed = if top.len() == 0 {
        report_head(s)
    } else {
        report_head(s) + "## Most Connected Nodes\n\n"@ + hub_lines(top, top.len() as int) + "\n"@
    };
    if s.isolated_docs == 0 {
        listed
    } else {
        listed + text::decimal(s.isolated_docs as nat)
            + " document(s) have no outgoing links.\n"@
    }
}

/// Appends a number in decimal notation.
pub fn append_number(s: &mut String, n: usize)
    ensures
        final(s)@ == old(s)@ + text::decimal(n as nat),
{
    let digits = text::decimal_of(n);
    text::push_chars(s, digits.as_slice());
}

/// Appends a number in decimal notation, aligned to the right.
pub fn append_right(s: &mut String, n: usize, width: usize)
    ensures
        final(s)@ == old(s)@ + text::padded_left(text::decimal(n as nat), width as int),
{
    let digits = text::decimal_of(n);
    let padded = text::pad_left(digits.as_slice(), width);
    text::push_chars(s, padded.as_slice());
}

/// Appends a text, aligned to the left.
pub fn append_left(s: &mut String, t: &str, width: usize)
    ensures
        final(s)@ == old(s)@ + text::padded_right(t@, width as int),
{
    let chars = text::chars_of(t);
    let padded = text::pad_right(chars.as_slice(), width);
    text::push_chars(s, padded.as_slice());
}

/// A line of the report.
fn render_hub(hub: &GodNode) -> (r: String)
    ensures
        r@ == hub_line((hub.node@, hub.degree)),
{
    let mut out = "  ".to_owned();
    append_right(&mut out, hub.degree, 4);
    out.append("  ");
    append_left(&mut out, hub.node.kind.as_str(), 12);
    out.append("  ");
    out.append(hub.node.label.as_str());
    out.append("\n");
    out
}

/// The text of a report with the given counts and most connected nodes.
pub fn report_from(s: &GraphStats, top: &Vec<GodNode>) -> (r: String)
    ensures
        r@ == report_text(*s, hub_views(top@)),
{
    let mut out = "# Knowledge Graph Report\n\n".to_owned();
    out.append("Nodes  : ");
    append_number(&mut out, s.total_nodes);
    out.append("  (documents: ");
    append_number(&mut out, s.doc_nodes);
    out.append(", wikilinks: ");
    append_number(&mut out, s.wikilink_nodes);
    out.append(", tags: ");
    append_number(&mut out, s.tag_nodes);
    out.append(")\n");
    out.append("Edges  : ");
    append_number(&mut out, s.total_edges);
    out.append("  (extracted: ");
    append_number(&mut out, s.extracted_edges);
    out.append(", inferred: ");
    append_number(&mut out, s.inferred_edges);
    out.append(", ambiguous: ");
    append_number(&mut out, s.ambiguous_edges);
    out.append(")\n\n");
    let ghost head = report_head(*s);
    assert(out@ == head);
    let n: usize = top.len();
    if n > 0 {
        out.append("## Most Connected Nodes\n\n");
        let ghost start = out@;
        let ghost all = hub_views(top@);
        let mut i: usize = 0;
        assert(start + hub_lines(all, 0) =~= start);
        while i < n
            invariant
                i <= n == top@.len(),
                all == hub_views(top@),
                out@ == start + hub_lines(all, i as int),
            decreases n - i,
        {
            let line = render_hub(&top[i]);
            out.append(line.as_str());
            i += 1;
            assert(out@ =~= start + (hub_lines(all, i - 1) + hub_line(all[i - 1])));
        }
        out.append("\n");
    }
    if s.isolated_docs > 0 {
        append_number(&mut out, s.isolated_docs);
        out.append(" document(s) have no outgoing links.\n");
    }
    out
}

impl Db {
    /// Returns top `limit` nodes by total degree (isolated nodes excluded).
    pub fn god_nodes(&self, limit: usize) -> (r: Vec<GodNode>)
        ensures
            hub_views(r@) == db::limited(hubs(self@), limit as int),
            reads::are_hubs(self@, limit as int, hub_views(r@)),
    {
        proof {
            reads::hubs_are_the_most_linked(self@, limit as int);
        }
        let n: usize = self.nodes.len();
        let mut found: Vec<GodNode> = Vec::new();
        let mut keys: Vec<i128> = Vec::new();
        let mut i: usize = 0;
        assert(hub_views(found@) =~= Seq::empty());
        while i < n
            invariant
                i <= n == self.nodes@.len(),
                hub_views(found@) == connected(self@, i as int),
                keys@.len() == found@.len(),
                forall|k: int|
                    0 <= k < keys@.len() ==> (#[trigger] keys@[k]) == traverse::degrees(
                        hub_views(found@),
                    )[k],
            decreases n - i,
        {
            let ghost had = found@;
            let degree: usize = self.node_degree(self.nodes[i].id.as_str());
            assert(self@.nodes[i as int] == self.nodes@[i as int]@);
            if degree > 0 {
                found.push(GodNode { node: self.nodes[i].clone(), degree });
                keys.push(degree as i128);
                assert(hub_views(found@) =~= hub_views(had).push((self@.nodes[i as int], degree)));
            }
            i += 1;
        }
        let ghost all = connected(self@, n as int);
        assert(order::key_ints(keys@) =~= traverse::degrees(all));
        let sorted = order::order_desc(&keys);
        let ghost full = hubs(self@);
        let total: usize = found.len();
        let count: usize = if total <= limit {
            total
        } else {
            limit
        };
        let mut out: Vec<GodNode> = Vec::new();
        let mut k: usize = 0;
        assert(hub_views(out@) =~= full.take(0));
        while k < count
            invariant
                k <= count <= total == found@.len() == sorted@.len() == full.len(),
                all == hub_views(found@),
                order::covers(order::ints(sorted@), 0, total as int),
                full == order::arranged(all, order::ints(sorted@)),
                hub_views(out@) == full.take(k as int),
            decreases count - k,
        {
            let ghost had = out@;
            assert(0 <= order::ints(sorted@)[k as int] < total);
            let at: usize = sorted[k];
            out.push(GodNode { node: found[at].node.clone(), degree: found[at].degree });
            assert(hub_views(out@) =~= hub_views(had).push(full[k as int]));
            k += 1;
            assert(full.take(k as int) =~= full.take(k - 1).push(full[k - 1]));
        }
        assert(full.take(full.len() as int) =~= full);
        out
    }

    /// Generates a plain-text summary of the knowledge graph.
    pub fn graph_report(&self) -> (r: String)
        ensures
            exists|s: GraphStats| #[trigger]
                db::is_graph_stats(self@, s) && r@ == report_text(
                    s,
                    db::limited(hubs(self@), 10),
                ),
    {
        let stats = self.graph_stats();
        let top = self.god_nodes(10);
        let r = report_from(&stats, &top);
        assert(db::is_graph_stats(self@, stats));
        r
    }
}

/// A list of hubs holds no isolated node.
pub proof fn hubs_are_connected(store: DbView, n: int)
    requires
        0 <= n <= store.nodes.len(),
    ensures
        forall|i: int| 0 <= i < connected(store, n).len() ==> (#[trigger] connected(store, n)[i]).1 > 0,
        forall|k: int|
            0 <= k < n && db::degree_of(store.edges, (#[trigger] store.nodes[k]).id) > 0
                ==> connected(store, n).contains(
                (store.nodes[k], db::degree_of(store.edges, store.nodes[k].id)),
            ),
    decreases n,
{
    if n > 0 {
        hubs_are_connected(store, n - 1);
        let before = connected(store, n - 1);
        let now = connected(store, n);
        assert forall|i: int| 0 <= i < now.len() implies (#[trigger] now[i]).1 > 0 by {
            if i < before.len() {
                assert(now[i] == before[i]);
            }
        }
        assert forall|k: int|
            0 <= k < n && db::degree_of(store.edges, (#[trigger] store.nodes[k]).id)
                > 0 implies now.contains(
            (store.nodes[k], db::degree_of(store.edges, store.nodes[k].id)),
        ) by {
            let hub = (store.nodes[k], db::degree_of(store.edges, store.nodes[k].id));
            if k < n - 1 {
                assert(before.contains(hub));
                let j = choose|j: int| 0 <= j < before.len() && before[j] == hub;
                assert(now[j] == hub);
            } else {
                assert(now[now.len() - 1] == hub);
            }
        }
    }
}

} // verus!
