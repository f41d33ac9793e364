//! What is printed: which of the things an answer is about its text names, and in which
//! order.

use vstd::prelude::*;

use crate::command;
use crate::db;
use crate::db::{DbView, StoreStats};
use crate::document::DocumentView;
use crate::error;
use crate::error::MksError;
use crate::graph;
use crate::graph::{GraphStats, NodeView};
use crate::report;
use crate::rows;
use crate::search::SearchResultView;
use crate::text;
use crate::traverse;

verus! {

// ---------------------------------------------------------------------------
// Parts of a text
// ---------------------------------------------------------------------------

/// Whether a text holds another.
#[verifier::opaque]
pub open spec fn holds(t: Seq<char>, part: Seq<char>) -> bool {
    exists|i: int| #[trigger] text::occurs_at(t, part, i)
}

/// Whether a text holds one part and, behind it, another.
#[verifier::opaque]
pub open spec fn holds_in_order(t: Seq<char>, first: Seq<char>, second: Seq<char>) -> bool {
    exists|i: int, j: int|
        #[trigger] text::occurs_at(t, first, i) && #[trigger] text::occurs_at(t, second, j) && i
            + first.len() <= j
}

/// A part of a part is a part.
pub proof fn parts_of_parts_are_parts(t: Seq<char>, mid: Seq<char>, part: Seq<char>)
    requires
        holds(t, mid),
        holds(mid, part),
    ensures
        holds(t, part),
{
    reveal(holds);
    let i = choose|i: int| #[trigger] text::occurs_at(t, mid, i);
    let j = choose|j: int| #[trigger] text::occurs_at(mid, part, j);
    assert(t.subrange(i + j, i + j + part.len()) =~= t.subrange(i, i + mid.len()).subrange(
        j,
        j + part.len(),
    ));
    assert(text::occurs_at(t, part, i + j));
}

proof fn lemma_between(before: Seq<char>, part: Seq<char>, behind: Seq<char>)
    ensures
        holds(before + part + behind, part),
{
    reveal(holds);
    let t = before + part + behind;
    let i = before.len() as int;
    assert(t.subrange(i, i + part.len()) =~= part);
    assert(text::occurs_at(t, part, i));
}

proof fn lemma_left(t: Seq<char>, more: Seq<char>, part: Seq<char>)
    requires
        holds(t, part),
    ensures
        holds(t + more, part),
{
    reveal(holds);
    let i = choose|i: int| #[trigger] text::occurs_at(t, part, i);
    assert((t + more).subrange(i, i + part.len()) =~= t.subrange(i, i + part.len()));
    assert(text::occurs_at(t + more, part, i));
}

proof fn lemma_right(before: Seq<char>, t: Seq<char>, part: Seq<char>)
    requires
        holds(t, part),
    ensures
        holds(before + t, part),
{
    reveal(holds);
    let i = choose|i: int| #[trigger] text::occurs_at(t, part, i);
    let k = before.len() + i;
    assert((before + t).subrange(k, k + part.len()) =~= t.subrange(i, i + part.len()));
    assert(text::occurs_at(before + t, part, k));
}

proof fn lemma_last(before: Seq<char>, part: Seq<char>)
    ensures
        holds(before + part, part),
{
    lemma_between(before, part, Seq::empty());
    assert(before + part + Seq::<char>::empty() =~= before + part);
}

// ---------------------------------------------------------------------------
// Documents and search results
// ---------------------------------------------------------------------------

proof fn lemma_listed(docs: Seq<DocumentView>, n: int, i: int)
    requires
        0 <= i < n <= docs.len(),
    ensures
        holds(command::list_lines(docs, n), command::list_line(docs[i])),
    decreases n,
{
    let before = command::list_lines(docs, n - 1);
    let last = command::list_line(docs[n - 1]);
    if i < n - 1 {
        lemma_listed(docs, n - 1, i);
        lemma_left(before, last, command::list_line(docs[i]));
    } else {
        lemma_last(before, last);
    }
}

/// A printed listing names every document: its collection, title and identifier, and
/// the date on which it was added.
pub proof fn listings_name_their_documents(docs: Seq<DocumentView>, i: int)
    requires
        0 <= i < docs.len(),
    ensures
        ({
            let d = docs[i];
            let printed = command::list_text(docs);
            let date = rows::time_text(d.added_at.secs, d.added_at.nanos, rows::DATE_FORMAT@);
            &&& holds(printed, d.collection)
            &&& holds(printed, d.title)
            &&& holds(printed, d.id)
            &&& date is Some ==> holds(printed, date.unwrap())
        }),
{
    let d = docs[i];
    let printed = command::list_text(docs);
    let line = command::list_line(d);
    let date = match rows::time_text(d.added_at.secs, d.added_at.nanos, rows::DATE_FORMAT@) {
        Some(t) => t,
        None => Seq::empty(),
    };
    lemma_listed(docs, docs.len() as int, i);
    lemma_between("["@, d.collection, "] "@ + d.title + " — "@ + date + " ("@ + d.id + ")\n"@);
    assert(line =~= "["@ + d.collection + ("] "@ + d.title + " — "@ + date + " ("@ + d.id
        + ")\n"@));
    lemma_between(
        "["@ + d.collection + "] "@,
        d.title,
        " — "@ + date + " ("@ + d.id + ")\n"@,
    );
    assert(line =~= "["@ + d.collection + "] "@ + d.title + (" — "@ + date + " ("@ + d.id
        + ")\n"@));
    lemma_between(
        "["@ + d.collection + "] "@ + d.title + " — "@,
        date,
        " ("@ + d.id + ")\n"@,
    );
    assert(line =~= "["@ + d.collection + "] "@ + d.title + " — "@ + date + (" ("@ + d.id
        + ")\n"@));
    lemma_between("["@ + d.collection + "] "@ + d.title + " — "@ + date + " ("@, d.id, ")\n"@);
    parts_of_parts_are_parts(printed, line, d.collection);
    parts_of_parts_are_parts(printed, line, d.title);
    parts_of_parts_are_parts(printed, line, d.id);
    parts_of_parts_are_parts(printed, line, date);
}

proof fn lemma_listed_joined(a: Seq<DocumentView>, b: Seq<DocumentView>, n: int)
    requires
        0 <= n <= b.len(),
    ensures
        command::list_lines(a + b, a.len() + n) == command::list_lines(a, a.len() as int) + command::list_lines(b, n),
    decreases n,
{
    if n > 0 {
        lemma_listed_joined(a, b, n - 1);
        assert((a + b)[a.len() + n - 1] == b[n - 1]);
        assert(command::list_lines(a + b, a.len() + n) =~= command::list_lines(a, a.len() as int) + command::list_lines(b, n));
    } else {
        lemma_listed_prefix(a, b, a.len() as int);
        assert(command::list_lines(a, a.len() as int) + command::list_lines(b, 0) =~= command::list_lines(a, a.len() as int));
    }
}

proof fn lemma_listed_prefix(a: Seq<DocumentView>, b: Seq<DocumentView>, n: int)
    requires
        0 <= n <= a.len(),
    ensures
        command::list_lines(a + b, n) == command::list_lines(a, n),
    decreases n,
{
    if n > 0 {
        lemma_listed_prefix(a, b, n - 1);
        assert((a + b)[n - 1] == a[n - 1]);
    }
}

/// A listing is printed document by document: that of two lists in a row is that of the
/// first and then that of the second.
pub proof fn listings_are_printed_in_order(a: Seq<DocumentView>, b: Seq<DocumentView>)
    requires
        a.len() > 0,
        b.len() > 0,
    ensures
        command::list_text(a + b) == command::list_text(a) + command::list_text(b),
{
    lemma_listed_joined(a, b, b.len() as int);
}

proof fn lemma_found(results: Seq<SearchResultView>, n: int, i: int)
    requires
        0 <= i < n <= results.len(),
    ensures
        holds(command::results_lines(results, n), command::result_lines(results[i])),
    decreases n,
{
    let before = command::results_lines(results, n - 1);
    let last = command::result_lines(results[n - 1]);
    if i < n - 1 {
        lemma_found(results, n - 1, i);
        lemma_left(before, last, command::result_lines(results[i]));
    } else {
        lemma_last(before, last);
    }
}

proof fn lemma_result_line(col: Seq<char>, title: Seq<char>, id: Seq<char>)
    ensures
        ({
            let line = "["@ + col + "] "@ + title + " ("@ + id + ")\n"@;
            &&& holds(line, col)
            &&& holds(line, title)
            &&& holds(line, id)
        }),
{
    let line = "["@ + col + "] "@ + title + " ("@ + id + ")\n"@;
    lemma_between("["@, col, "] "@ + title + " ("@ + id + ")\n"@);
    assert(line =~= "["@ + col + ("] "@ + title + " ("@ + id + ")\n"@));
    lemma_between("["@ + col + "] "@, title, " ("@ + id + ")\n"@);
    assert(line =~= "["@ + col + "] "@ + title + (" ("@ + id + ")\n"@));
    lemma_between("["@ + col + "] "@ + title + " ("@, id, ")\n"@);
}

/// What is printed for a search names every result: its title and its document, its
/// collection where it has one and its snippet where it has one.
pub proof fn results_name_their_documents(results: Seq<SearchResultView>, i: int)
    requires
        0 <= i < results.len(),
    ensures
        ({
            let r = results[i];
            let printed = command::results_text(results);
            &&& holds(printed, r.title)
            &&& holds(printed, r.doc_id)
            &&& r.collection is Some ==> holds(printed, r.collection.unwrap())
            &&& r.snippet is Some ==> holds(printed, r.snippet.unwrap())
        }),
{
    let r = results[i];
    let printed = command::results_text(results);
    let lines = command::result_lines(r);
    let col = match r.collection {
        Some(c) => c,
        None => "default"@,
    };
    let line = "["@ + col + "] "@ + r.title + " ("@ + r.doc_id + ")\n"@;
    lemma_found(results, results.len() as int, i);
    match r.snippet {
        Some(s) => {
            lemma_between(Seq::empty(), line, "    "@ + s + "\n"@);
            assert(lines =~= Seq::<char>::empty() + line + ("    "@ + s + "\n"@));
            lemma_between(line + "    "@, s, "\n"@);
            parts_of_parts_are_parts(printed, lines, s);
        },
        None => {
            lemma_last(Seq::empty(), line);
            assert(lines =~= Seq::<char>::empty() + line);
        },
    }
    lemma_result_line(col, r.title, r.doc_id);
    parts_of_parts_are_parts(printed, lines, line);
    parts_of_parts_are_parts(printed, line, col);
    parts_of_parts_are_parts(printed, line, r.title);
    parts_of_parts_are_parts(printed, line, r.doc_id);
}

proof fn lemma_found_joined(a: Seq<SearchResultView>, b: Seq<SearchResultView>, n: int)
    requires
        0 <= n <= b.len(),
    ensures
        command::results_lines(a + b, a.len() + n) == command::results_lines(a, a.len() as int) + command::results_lines(b, n),
    decreases n,
{
    if n > 0 {
        lemma_found_joined(a, b, n - 1);
        assert((a + b)[a.len() + n - 1] == b[n - 1]);
        assert(command::results_lines(a + b, a.len() + n) =~= command::results_lines(a, a.len() as int) + command::results_lines(b, n));
    } else {
        lemma_found_prefix(a, b, a.len() as int);
        assert(command::results_lines(a, a.len() as int) + command::results_lines(b, 0) =~= command::results_lines(a, a.len() as int));
    }
}

proof fn lemma_found_prefix(a: Seq<SearchResultView>, b: Seq<SearchResultView>, n: int)
    requires
        0 <= n <= a.len(),
    ensures
        command::results_lines(a + b, n) == command::results_lines(a, n),
    decreases n,
{
    if n > 0 {
        lemma_found_prefix(a, b, n - 1);
        assert((a + b)[n - 1] == a[n - 1]);
    }
}

/// Results are printed one by one: those of two lists in a row are those of the first
/// and then those of the second.
pub proof fn results_are_printed_in_order(a: Seq<SearchResultView>, b: Seq<SearchResultView>)
    requires
        a.len() > 0,
        b.len() > 0,
    ensures
        command::results_text(a + b) == command::results_text(a) + command::results_text(b),
{
    lemma_found_joined(a, b, b.len() as int);
}

/// Search results and listings are written as one object each, in their order, that holds
/// the identifier, the title and the collection of its document; a result has a snippet
/// exactly where there is one, and a listed document its path and when it was added.
pub proof fn objects_hold_what_they_are_of(
    results: Seq<SearchResultView>,
    docs: Seq<DocumentView>,
    i: int,
    j: int,
)
    requires
        0 <= i < results.len(),
        0 <= j < docs.len(),
    ensures
        ({
            let found = command::result_objects(results);
            let listed = command::document_objects(docs);
            let r = results[i];
            let d = docs[j];
            &&& found.len() == results.len()
            &&& listed.len() == docs.len()
            &&& found[i].contains(("id"@, Some(r.doc_id)))
            &&& found[i].contains(("title"@, Some(r.title)))
            &&& found[i].contains(("collection"@, r.collection))
            &&& r.snippet is Some ==> found[i].contains(("snippet"@, r.snippet))
            &&& r.snippet is None ==> forall|k: int|
                0 <= k < found[i].len() ==> (#[trigger] found[i][k]).0 != "snippet"@
            &&& listed[j].contains(("id"@, Some(d.id)))
            &&& listed[j].contains(("title"@, Some(d.title)))
            &&& listed[j].contains(("collection"@, Some(d.collection)))
            &&& listed[j].contains(("path"@, Some(d.path)))
            &&& listed[j].contains(
                ("added_at"@, rows::rfc3339_text(d.added_at.secs, d.added_at.nanos)),
            )
        }),
{
    reveal_strlit("id");
    reveal_strlit("title");
    reveal_strlit("collection");
    reveal_strlit("snippet");
    let o = command::result_objects(results)[i];
    let d = command::document_objects(docs)[j];
    assert("id"@.len() == 2 && "title"@.len() == 5 && "collection"@.len() == 10
        && "snippet"@.len() == 7);
    assert(o[0].0 == "id"@ && o[1].0 == "title"@ && o[2].0 == "collection"@);
    assert(o.contains(o[0]) && o.contains(o[1]) && o.contains(o[2]));
    if results[i].snippet is Some {
        assert(o[3].0 == "snippet"@);
        assert(o.contains(o[3]));
    }
    assert(d.contains(d[0]) && d.contains(d[1]) && d.contains(d[2]) && d.contains(d[3])
        && d.contains(d[4]));
}

// ---------------------------------------------------------------------------
// Nodes
// ---------------------------------------------------------------------------

/// Whether a text names a node: its label, its kind and its number of links.
pub open spec fn names_node(t: Seq<char>, node: NodeView, degree: usize) -> bool {
    &&& holds(t, node.label)
    &&& holds(t, graph::kind_name(node.kind))
    &&& holds(t, text::decimal(degree as nat))
}

proof fn lemma_padded(s: Seq<char>, width: int)
    ensures
        holds(text::padded_left(s, width), s),
        holds(text::padded_right(s, width), s),
{
    lemma_last(text::spaces(width - s.len()), s);
    lemma_between(Seq::empty(), s, text::spaces(width - s.len()));
    assert(text::padded_right(s, width) =~= Seq::<char>::empty() + s + text::spaces(
        width - s.len(),
    ));
}

/// A line made of a degree, a kind and a label names the node.
proof fn lemma_node_line(
    a: Seq<char>,
    b: Seq<char>,
    c: Seq<char>,
    d: Seq<char>,
    node: NodeView,
    degree: usize,
    width: int,
)
    ensures
        names_node(
            a + text::padded_left(text::decimal(degree as nat), width) + b + text::padded_right(
                graph::kind_name(node.kind),
                12,
            ) + c + node.label + d,
            node,
            degree,
        ),
{
    let count = text::decimal(degree as nat);
    let kind = graph::kind_name(node.kind);
    let number = text::padded_left(count, width);
    let named = text::padded_right(kind, 12);
    let line = a + number + b + named + c + node.label + d;
    lemma_padded(count, width);
    lemma_padded(kind, 12);
    lemma_between(a, number, b + named + c + node.label + d);
    assert(line =~= a + number + (b + named + c + node.label + d));
    lemma_between(a + number + b, named, c + node.label + d);
    assert(line =~= a + number + b + named + (c + node.label + d));
    lemma_between(a + number + b + named + c, node.label, d);
    parts_of_parts_are_parts(line, number, count);
    parts_of_parts_are_parts(line, named, kind);
}

proof fn lemma_named_in(t: Seq<char>, line: Seq<char>, node: NodeView, degree: usize)
    requires
        holds(t, line),
        names_node(line, node, degree),
    ensures
        names_node(t, node, degree),
{
    parts_of_parts_are_parts(t, line, node.label);
    parts_of_parts_are_parts(t, line, graph::kind_name(node.kind));
    parts_of_parts_are_parts(t, line, text::decimal(degree as nat));
}

proof fn lemma_conn(indent: Seq<char>, found: Seq<(NodeView, usize)>, n: int, i: int)
    requires
        0 <= i < n <= found.len(),
    ensures
        holds(command::conn_lines(indent, found, n), command::conn_line(indent, found[i])),
    decreases n,
{
    let before = command::conn_lines(indent, found, n - 1);
    let last = command::conn_line(indent, found[n - 1]);
    if i < n - 1 {
        lemma_conn(indent, found, n - 1, i);
        lemma_left(before, last, command::conn_line(indent, found[i]));
    } else {
        lemma_last(before, last);
    }
}

proof fn lemma_gods(top: Seq<(NodeView, usize)>, n: int, i: int)
    requires
        0 <= i < n <= top.len(),
    ensures
        holds(command::god_lines(top, n), command::god_line(top[i])),
    decreases n,
{
    let before = command::god_lines(top, n - 1);
    let last = command::god_line(top[n - 1]);
    if i < n - 1 {
        lemma_gods(top, n - 1, i);
        lemma_left(before, last, command::god_line(top[i]));
    } else {
        lemma_last(before, last);
    }
}

proof fn lemma_hubs(top: Seq<(NodeView, usize)>, n: int, i: int)
    requires
        0 <= i < n <= top.len(),
    ensures
        holds(report::hub_lines(top, n), report::hub_line(top[i])),
    decreases n,
{
    let before = report::hub_lines(top, n - 1);
    let last = report::hub_line(top[n - 1]);
    if i < n - 1 {
        lemma_hubs(top, n - 1, i);
        lemma_left(before, last, report::hub_line(top[i]));
    } else {
        lemma_last(before, last);
    }
}

/// The answer to a graph query, or to a question for neighbours, names every node that
/// was found.
pub proof fn answers_name_the_nodes_found(
    words: Seq<char>,
    depth: nat,
    seeds: Seq<Seq<char>>,
    found: Seq<(NodeView, usize)>,
    i: int,
)
    requires
        0 <= i < found.len(),
    ensures
        seeds.len() > 0 ==> names_node(
            command::query_text(words, depth, seeds, found),
            found[i].0,
            found[i].1,
        ),
        seeds.len() > 0 ==> holds(
            command::query_text(words, depth, seeds, found),
            text::decimal(found.len()),
        ),
        names_node(command::neighbors_text(found), found[i].0, found[i].1),
{
    let n = found.len() as int;
    lemma_conn("  "@, found, n, i);
    lemma_conn(""@, found, n, i);
    lemma_node_line("  "@ + "["@, " conn] "@, " — "@, "\n"@, found[i].0, found[i].1, 3);
    lemma_node_line(""@ + "["@, " conn] "@, " — "@, "\n"@, found[i].0, found[i].1, 3);
    let lines = command::conn_lines("  "@, found, n);
    let printed = command::query_text(words, depth, seeds, found);
    lemma_named_in(
        command::neighbors_text(found),
        command::conn_line(""@, found[i]),
        found[i].0,
        found[i].1,
    );
    if seeds.len() > 0 {
        let count = text::decimal(found.len());
        let more = " nodes, depth ≤"@ + text::decimal(depth) + "):\n\n"@ + lines;
        lemma_right(
            "Subgraph ("@ + count + " nodes, depth ≤"@ + text::decimal(depth) + "):\n\n"@,
            lines,
            command::conn_line("  "@, found[i]),
        );
        lemma_named_in(printed, command::conn_line("  "@, found[i]), found[i].0, found[i].1);
        lemma_between("Subgraph ("@, count, more);
        assert(printed =~= "Subgraph ("@ + count + more);
    }
}

/// The answer to a question for the most connected nodes, and a report, name each of
/// them.
pub proof fn answers_name_the_hubs(s: GraphStats, top: Seq<(NodeView, usize)>, i: int)
    requires
        0 <= i < top.len(),
    ensures
        names_node(command::god_text(top), top[i].0, top[i].1),
        names_node(report::report_text(s, top), top[i].0, top[i].1),
{
    let n = top.len() as int;
    lemma_gods(top, n, i);
    lemma_hubs(top, n, i);
    lemma_node_line("  "@, " connections  "@, "  "@, "\n"@, top[i].0, top[i].1, 4);
    lemma_node_line("  "@, "  "@, "  "@, "\n"@, top[i].0, top[i].1, 4);
    lemma_right(
        text::decimal(top.len()) + " most connected nodes:\n\n"@,
        command::god_lines(top, n),
        command::god_line(top[i]),
    );
    lemma_named_in(command::god_text(top), command::god_line(top[i]), top[i].0, top[i].1);
    let head = report::report_head(s) + "## Most Connected Nodes\n\n"@;
    let lines = report::hub_lines(top, n);
    let line = report::hub_line(top[i]);
    let listed = head + lines + "\n"@;
    lemma_right(head, lines, line);
    lemma_left(head + lines, "\n"@, line);
    if s.isolated_docs > 0 {
        let more = text::decimal(s.isolated_docs as nat)
            + " document(s) have no outgoing links.\n"@;
        lemma_left(listed, more, line);
        assert(report::report_text(s, top) =~= listed + more);
    }
    lemma_named_in(report::report_text(s, top), line, top[i].0, top[i].1);
}

proof fn lemma_backlinks(store: DbView, links: Seq<(Seq<char>, Seq<char>, u32)>, n: int, i: int)
    requires
        0 <= i < n <= links.len(),
    ensures
        holds(command::backlink_lines(store, links, n), command::backlink_line(store, links[i])),
    decreases n,
{
    let before = command::backlink_lines(store, links, n - 1);
    let last = command::backlink_line(store, links[n - 1]);
    if i < n - 1 {
        lemma_backlinks(store, links, n - 1, i);
        lemma_left(before, last, command::backlink_line(store, links[i]));
    } else {
        lemma_last(before, last);
    }
}

/// The answer to a question for backlinks says how many there are, and names the node that
/// each comes from, where the graph holds it, and its relation.
pub proof fn answers_name_the_backlinks(store: DbView, name: Seq<char>, id: Seq<char>, i: int)
    requires
        0 <= i < db::links_to(store.edges, id).len(),
    ensures
        ({
            let links = db::links_to(store.edges, id);
            let printed = command::backlinks_text(store, name, id);
            &&& holds(printed, text::decimal(links.len()))
            &&& traverse::has_node(store, links[i].0) ==> holds_in_order(
                printed,
                traverse::node_of(store, links[i].0).label,
                links[i].1,
            )
        }),
{
    let links = db::links_to(store.edges, id);
    let printed = command::backlinks_text(store, name, id);
    let count = text::decimal(links.len());
    let lines = command::backlink_lines(store, links, links.len() as int);
    let head = "Backlinks to '"@ + name + "' ("@ + count + "):\n\n"@;
    lemma_between("Backlinks to '"@ + name + "' ("@, count, "):\n\n"@ + lines);
    assert(printed =~= "Backlinks to '"@ + name + "' ("@ + count + ("):\n\n"@ + lines));
    if traverse::has_node(store, links[i].0) {
        let source = traverse::node_of(store, links[i].0);
        let line = command::backlink_line(store, links[i]);
        let kind = "  "@ + text::padded_right(graph::kind_name(source.kind), 12) + "  "@;
        lemma_backlinks(store, links, links.len() as int, i);
        lemma_right(head, lines, line);
        lemma_in_order(kind, source.label, " ──["@, links[i].1, "]──>\n"@);
        lemma_order_in(printed, line, source.label, links[i].1);
    }
}

proof fn lemma_in_order(
    a: Seq<char>,
    first: Seq<char>,
    b: Seq<char>,
    second: Seq<char>,
    c: Seq<char>,
)
    ensures
        holds_in_order(a + first + b + second + c, first, second),
{
    reveal(holds_in_order);
    let t = a + first + b + second + c;
    let i = a.len() as int;
    let j = (a + first + b).len() as int;
    assert(t.subrange(i, i + first.len()) =~= first);
    assert(t.subrange(j, j + second.len()) =~= second);
    assert(text::occurs_at(t, first, i) && text::occurs_at(t, second, j));
}

proof fn lemma_order_in(t: Seq<char>, line: Seq<char>, first: Seq<char>, second: Seq<char>)
    requires
        holds(t, line),
        holds_in_order(line, first, second),
    ensures
        holds_in_order(t, first, second),
{
    reveal(holds);
    reveal(holds_in_order);
    let k = choose|k: int| #[trigger] text::occurs_at(t, line, k);
    let (i, j) = choose|i: int, j: int|
        #[trigger] text::occurs_at(line, first, i) && #[trigger] text::occurs_at(line, second, j)
            && i + first.len() <= j;
    let part = t.subrange(k, k + line.len());
    assert(t.subrange(k + i, k + i + first.len()) =~= part.subrange(i, i + first.len()));
    assert(t.subrange(k + j, k + j + second.len()) =~= part.subrange(j, j + second.len()));
    assert(text::occurs_at(t, first, k + i) && text::occurs_at(t, second, k + j));
}

// ---------------------------------------------------------------------------
// Paths
// ---------------------------------------------------------------------------

/// The lines of the first hops stand before those of later ones.
proof fn lemma_hops(hops: Seq<(NodeView, Seq<char>)>, n: int, i: int)
    requires
        0 <= i < n <= hops.len(),
    ensures
        holds(command::hop_lines(hops, n), command::hop_line(hops[i], i == 0)),
    decreases n,
{
    let before = command::hop_lines(hops, n - 1);
    let last = command::hop_line(hops[n - 1], n == 1);
    if i < n - 1 {
        lemma_hops(hops, n - 1, i);
        lemma_left(before, last, command::hop_line(hops[i], i == 0));
    } else {
        lemma_last(before, last);
    }
}

proof fn lemma_hops_order(hops: Seq<(NodeView, Seq<char>)>, n: int, i: int, j: int, first: Seq<char>, second: Seq<char>)
    requires
        0 <= i < j < n <= hops.len(),
        holds(command::hop_line(hops[i], i == 0), first),
        holds(command::hop_line(hops[j], false), second),
    ensures
        holds_in_order(command::hop_lines(hops, n), first, second),
    decreases n,
{
    let before = command::hop_lines(hops, n - 1);
    let last = command::hop_line(hops[n - 1], n == 1);
    let all = command::hop_lines(hops, n);
    if j < n - 1 {
        lemma_hops_order(hops, n - 1, i, j, first, second);
        lemma_between(Seq::empty(), before, last);
        assert(all =~= Seq::<char>::empty() + before + last);
        lemma_order_in(all, before, first, second);
    } else {
        lemma_hops(hops, n - 1, i);
        parts_of_parts_are_parts(before, command::hop_line(hops[i], i == 0), first);
        reveal(holds);
        reveal(holds_in_order);
        let a = choose|a: int| #[trigger] text::occurs_at(before, first, a);
        let b = choose|b: int| #[trigger] text::occurs_at(last, second, b);
        let k = before.len() + b;
        assert(all.subrange(a, a + first.len()) =~= before.subrange(a, a + first.len()));
        assert(all.subrange(k, k + second.len()) =~= last.subrange(b, b + second.len()));
        assert(text::occurs_at(all, first, a) && text::occurs_at(all, second, k));
    }
}

proof fn lemma_hop_line(hop: (NodeView, Seq<char>), first: bool)
    ensures
        holds(command::hop_line(hop, first), hop.0.label),
        !first ==> holds_in_order(command::hop_line(hop, first), hop.1, hop.0.label),
{
    let kind = graph::kind_name(hop.0.kind);
    let line = command::hop_line(hop, first);
    let behind = " ["@ + kind + "]\n"@;
    if first {
        lemma_between("  "@, hop.0.label, behind);
        assert(line =~= "  "@ + hop.0.label + behind);
    } else {
        let before = "  ──["@ + hop.1 + "]──> "@;
        lemma_between(before, hop.0.label, behind);
        assert(line =~= before + hop.0.label + behind);
        lemma_in_order("  ──["@, hop.1, "]──> "@, hop.0.label, behind);
        assert(line =~= "  ──["@ + hop.1 + "]──> "@ + hop.0.label + behind);
    }
}

/// A printed path says how many hops it has and names its nodes in order, before each
/// but the first the relation by which it is reached.
pub proof fn paths_name_their_nodes_in_order(hops: Seq<(NodeView, Seq<char>)>, i: int)
    requires
        0 <= i < hops.len(),
    ensures
        ({
            let printed = command::path_text(hops);
            &&& holds(printed, text::decimal((hops.len() - 1) as nat))
            &&& holds(printed, hops[i].0.label)
            &&& i > 0 ==> holds_in_order(printed, hops[i].1, hops[i].0.label)
            &&& forall|j: int|
                i < j < hops.len() ==> holds_in_order(
                    printed,
                    hops[i].0.label,
                    (#[trigger] hops[j]).0.label,
                )
        }),
{
    let n = hops.len() as int;
    let printed = command::path_text(hops);
    let count = text::decimal((hops.len() - 1) as nat);
    let lines = command::hop_lines(hops, n);
    let head = "Path ("@ + count + " hops):\n"@;
    let line = command::hop_line(hops[i], i == 0);
    lemma_between("Path ("@, count, " hops):\n"@ + lines);
    assert(printed =~= "Path ("@ + count + (" hops):\n"@ + lines));
    lemma_last(head, lines);
    assert(printed == head + lines);
    lemma_hops(hops, n, i);
    lemma_hop_line(hops[i], i == 0);
    parts_of_parts_are_parts(printed, lines, line);
    parts_of_parts_are_parts(printed, line, hops[i].0.label);
    if i > 0 {
        lemma_order_in(printed, line, hops[i].1, hops[i].0.label);
    }
    assert forall|j: int| i < j < hops.len() implies holds_in_order(
        printed,
        hops[i].0.label,
        (#[trigger] hops[j]).0.label,
    ) by {
        lemma_hop_line(hops[j], false);
        lemma_hops_order(hops, n, i, j, hops[i].0.label, hops[j].0.label);
        lemma_order_in(printed, lines, hops[i].0.label, hops[j].0.label);
    }
}

// ---------------------------------------------------------------------------
// Counts and messages
// ---------------------------------------------------------------------------

proof fn lemma_collections(counts: Seq<(Seq<char>, int)>, n: int, i: int)
    requires
        0 <= i < n <= counts.len(),
    ensures
        holds(command::collection_lines(counts, n), command::collection_line(counts[i])),
    decreases n,
{
    let before = command::collection_lines(counts, n - 1);
    let last = command::collection_line(counts[n - 1]);
    if i < n - 1 {
        lemma_collections(counts, n - 1, i);
        lemma_left(before, last, command::collection_line(counts[i]));
    } else {
        lemma_last(before, last);
    }
}

/// A line ends where the next begins.
proof fn lemma_count_line(before: Seq<char>, line: Seq<char>, behind: Seq<char>)
    requires
        behind.len() > 0,
        behind[0] == '\n',
    ensures
        holds(before + line + behind, line + "\n"@),
{
    reveal_strlit("\n");
    lemma_between(before, line + "\n"@, behind.skip(1));
    assert(before + line + behind =~= before + (line + "\n"@) + behind.skip(1));
}

proof fn lemma_collection_printed(counts: Seq<(Seq<char>, int)>, head: Seq<char>, i: int)
    requires
        0 <= i < counts.len(),
    ensures
        holds_in_order(
            head + command::collection_lines(counts, counts.len() as int),
            text::decimal(counts[i].1 as nat),
            counts[i].0,
        ),
{
    let lines = command::collection_lines(counts, counts.len() as int);
    let count = text::decimal(counts[i].1 as nat);
    let line = command::collection_line(counts[i]);
    let gap = text::spaces(4 - count.len());
    lemma_collections(counts, counts.len() as int, i);
    lemma_right(head, lines, line);
    lemma_in_order("  "@ + gap, count, "  "@, counts[i].0, "\n"@);
    assert(line =~= "  "@ + gap + count + "  "@ + counts[i].0 + "\n"@);
    lemma_order_in(head + lines, line, count, counts[i].0);
}

proof fn lemma_counts_head(
    docs: Seq<char>,
    chunks: Seq<char>,
    nodes: Seq<char>,
    edges: Seq<char>,
)
    requires
        chunks.len() > 0 && chunks[0] == '\n',
        nodes.len() > 0 && nodes[0] == '\n',
        edges.len() > 0 && edges[0] == '\n',
    ensures
        ({
            let head = docs + chunks + nodes + edges + "\n"@;
            &&& holds(head, docs + "\n"@)
            &&& holds(head, chunks + "\n"@)
            &&& holds(head, nodes + "\n"@)
            &&& holds(head, edges + "\n"@)
        }),
{
    reveal_strlit("\n");
    let head = docs + chunks + nodes + edges + "\n"@;
    lemma_count_line(Seq::empty(), docs, chunks + nodes + edges + "\n"@);
    assert(head =~= Seq::<char>::empty() + docs + (chunks + nodes + edges + "\n"@));
    lemma_count_line(docs, chunks, nodes + edges + "\n"@);
    assert(head =~= docs + chunks + (nodes + edges + "\n"@));
    lemma_count_line(docs + chunks, nodes, edges + "\n"@);
    assert(head =~= docs + chunks + nodes + (edges + "\n"@));
    lemma_count_line(docs + chunks + nodes, edges, "\n"@);
}

/// What is printed for the store's counts says each of them, and with every collection
/// the number of its documents.
pub proof fn counts_are_printed(s: StoreStats, i: int)
    ensures
        ({
            let printed = command::stats_text(s);
            let counts = db::count_views(s.collections@);
            &&& holds(printed, "Documents : "@ + text::decimal(s.total_docs as nat) + "\n"@)
            &&& holds(printed, "\nChunks    : "@ + text::decimal(s.total_chunks as nat) + "\n"@)
            &&& holds(printed, "\nNodes     : "@ + text::decimal(s.total_nodes as nat) + "\n"@)
            &&& holds(printed, "\nEdges     : "@ + text::decimal(s.total_edges as nat) + "\n"@)
            &&& 0 <= i < counts.len() ==> holds_in_order(
                printed,
                text::decimal(counts[i].1 as nat),
                counts[i].0,
            )
        }),
{
    reveal_strlit("\nChunks    : ");
    reveal_strlit("\nNodes     : ");
    reveal_strlit("\nEdges     : ");
    let docs = "Documents : "@ + text::decimal(s.total_docs as nat);
    let chunks = "\nChunks    : "@ + text::decimal(s.total_chunks as nat);
    let nodes = "\nNodes     : "@ + text::decimal(s.total_nodes as nat);
    let edges = "\nEdges     : "@ + text::decimal(s.total_edges as nat);
    let head = docs + chunks + nodes + edges + "\n"@;
    let printed = command::stats_text(s);
    let counts = db::count_views(s.collections@);
    lemma_counts_head(docs, chunks, nodes, edges);
    lemma_counts_assoc(s);
    if counts.len() > 0 {
        let lines = command::collection_lines(counts, counts.len() as int);
        assert(printed == head + "\nBy collection:\n"@ + lines);
        lemma_between(Seq::empty(), head, "\nBy collection:\n"@ + lines);
        assert(printed =~= Seq::<char>::empty() + head + ("\nBy collection:\n"@ + lines));
        parts_of_parts_are_parts(printed, head, docs + "\n"@);
        parts_of_parts_are_parts(printed, head, chunks + "\n"@);
        parts_of_parts_are_parts(printed, head, nodes + "\n"@);
        parts_of_parts_are_parts(printed, head, edges + "\n"@);
        if 0 <= i < counts.len() {
            lemma_collection_printed(counts, head + "\nBy collection:\n"@, i);
        }
    }
}

/// The counts are printed as four lines.
proof fn lemma_counts_assoc(s: StoreStats)
    ensures
        ({
            let head = ("Documents : "@ + text::decimal(s.total_docs as nat)) + ("\nChunks    : "@
                + text::decimal(s.total_chunks as nat)) + ("\nNodes     : "@ + text::decimal(
                s.total_nodes as nat,
            )) + ("\nEdges     : "@ + text::decimal(s.total_edges as nat)) + "\n"@;
            let counts = db::count_views(s.collections@);
            command::stats_text(s) == if counts.len() == 0 {
                head
            } else {
                head + "\nBy collection:\n"@ + command::collection_lines(
                    counts,
                    counts.len() as int,
                )
            }
        }),
{
    let d = text::decimal(s.total_docs as nat);
    let c = text::decimal(s.total_chunks as nat);
    let n = text::decimal(s.total_nodes as nat);
    let e = text::decimal(s.total_edges as nat);
    assert("Documents : "@ + d + "\nChunks    : "@ + c + "\nNodes     : "@ + n + "\nEdges     : "@ + e
        + "\n"@ =~= ("Documents : "@ + d) + ("\nChunks    : "@ + c) + ("\nNodes     : "@ + n) + (
    "\nEdges     : "@ + e) + "\n"@);
}

proof fn lemma_count(t: Seq<char>, before: Seq<char>, label: Seq<char>, count: Seq<char>)
    requires
        holds(t, before + label + count),
    ensures
        holds(t, label + count),
        holds(t, before),
{
    lemma_last(before, label + count);
    assert(before + label + count =~= before + (label + count));
    parts_of_parts_are_parts(t, before + label + count, label + count);
    lemma_between(Seq::empty(), before, label + count);
    assert(before + label + count =~= Seq::<char>::empty() + before + (label + count));
    parts_of_parts_are_parts(t, before + label + count, before);
}

/// Whether a text says each of the graph's counts.
pub open spec fn says_counts(t: Seq<char>, s: GraphStats) -> bool {
    &&& holds(t, "Nodes  : "@ + text::decimal(s.total_nodes as nat))
    &&& holds(t, "  (documents: "@ + text::decimal(s.doc_nodes as nat))
    &&& holds(t, ", wikilinks: "@ + text::decimal(s.wikilink_nodes as nat))
    &&& holds(t, ", tags: "@ + text::decimal(s.tag_nodes as nat))
    &&& holds(t, "Edges  : "@ + text::decimal(s.total_edges as nat))
    &&& holds(t, "  (extracted: "@ + text::decimal(s.extracted_edges as nat))
    &&& holds(t, ", inferred: "@ + text::decimal(s.inferred_edges as nat))
    &&& holds(t, ", ambiguous: "@ + text::decimal(s.ambiguous_edges as nat))
}

proof fn lemma_report_head(t: Seq<char>, s: GraphStats)
    requires
        holds(t, report::report_head(s)),
    ensures
        says_counts(t, s),
{
    let a = "# Knowledge Graph Report\n\n"@;
    let b = a + "Nodes  : "@ + text::decimal(s.total_nodes as nat);
    let c = b + "  (documents: "@ + text::decimal(s.doc_nodes as nat);
    let d = c + ", wikilinks: "@ + text::decimal(s.wikilink_nodes as nat);
    let e = d + ", tags: "@ + text::decimal(s.tag_nodes as nat);
    let f = e + ")\n"@ + "Edges  : "@ + text::decimal(s.total_edges as nat);
    let g = f + "  (extracted: "@ + text::decimal(s.extracted_edges as nat);
    let h = g + ", inferred: "@ + text::decimal(s.inferred_edges as nat);
    let k = h + ", ambiguous: "@ + text::decimal(s.ambiguous_edges as nat);
    assert(report::report_head(s) == k + ")\n\n"@);
    lemma_first(t, k, ")\n\n"@);
    lemma_count(t, h, ", ambiguous: "@, text::decimal(s.ambiguous_edges as nat));
    lemma_count(t, g, ", inferred: "@, text::decimal(s.inferred_edges as nat));
    lemma_count(t, f, "  (extracted: "@, text::decimal(s.extracted_edges as nat));
    lemma_count(t, e + ")\n"@, "Edges  : "@, text::decimal(s.total_edges as nat));
    lemma_first(t, e, ")\n"@);
    lemma_count(t, d, ", tags: "@, text::decimal(s.tag_nodes as nat));
    lemma_count(t, c, ", wikilinks: "@, text::decimal(s.wikilink_nodes as nat));
    lemma_count(t, b, "  (documents: "@, text::decimal(s.doc_nodes as nat));
    lemma_count(t, a, "Nodes  : "@, text::decimal(s.total_nodes as nat));
}

proof fn lemma_first(t: Seq<char>, part: Seq<char>, more: Seq<char>)
    requires
        holds(t, part + more),
    ensures
        holds(t, part),
{
    lemma_between(Seq::empty(), part, more);
    assert(part + more =~= Seq::<char>::empty() + part + more);
    parts_of_parts_are_parts(t, part + more, part);
}

/// A report says each of the graph's counts, and how many documents link to nothing where
/// there are any.
pub proof fn reports_say_the_counts(s: GraphStats, top: Seq<(NodeView, usize)>)
    ensures
        says_counts(report::report_text(s, top), s),
        s.isolated_docs > 0 ==> holds(
            report::report_text(s, top),
            text::decimal(s.isolated_docs as nat) + " document(s) have no outgoing links.\n"@,
        ),
{
    let printed = report::report_text(s, top);
    let head = report::report_head(s);
    let title = "## Most Connected Nodes\n\n"@;
    let lines = report::hub_lines(top, top.len() as int);
    let listed = if top.len() == 0 {
        head
    } else {
        head + title + lines + "\n"@
    };
    let last = text::decimal(s.isolated_docs as nat) + " document(s) have no outgoing links.\n"@;
    lemma_last(Seq::empty(), head);
    assert(Seq::<char>::empty() + head =~= head);
    if top.len() > 0 {
        lemma_left(head, title, head);
        lemma_left(head + title, lines, head);
        lemma_left(head + title + lines, "\n"@, head);
    }
    if s.isolated_docs > 0 {
        lemma_left(listed, last, head);
        lemma_last(listed, last);
        assert(printed =~= listed + last);
    }
    lemma_report_head(printed, s);
}

/// The message of an error names what it is about.
pub proof fn messages_name_what_failed(e: MksError)
    ensures
        ({
            let m = error::message_of(e);
            match e {
                MksError::Io(t) => holds(m, t@),
                MksError::Db(t) => holds(m, t@),
                MksError::Serialize(t) => holds(m, t@),
                MksError::NotFound(t) => holds(m, t@),
                MksError::NodeNotFound(t) => holds(m, t@),
                MksError::NoPath(a, b) => holds_in_order(m, a@, b@),
                MksError::NotInitialized(t) => holds(m, t@),
                MksError::Glob(t) => holds(m, t@),
                MksError::Other(t) => m == t@,
            }
        }),
{
    match e {
        MksError::Io(t) => lemma_last("I/O error: "@, t@),
        MksError::Db(t) => lemma_last("Database error: "@, t@),
        MksError::Serialize(t) => lemma_last("Serialization error: "@, t@),
        MksError::NotFound(t) => lemma_last("Document not found: "@, t@),
        MksError::NodeNotFound(t) => lemma_between("Graph node not found: '"@, t@, "'"@),
        MksError::NoPath(a, b) => lemma_in_order("No path between '"@, a@, "' and '"@, b@, "'"@),
        MksError::NotInitialized(t) => lemma_between(
            "Store not initialized at "@,
            t@,
            " — run `mks init` first"@,
        ),
        MksError::Glob(t) => lemma_last("Glob error: "@, t@),
        MksError::Other(t) => {},
    }
}

} // verus!
