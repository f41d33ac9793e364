//! What is written to the store and taken from it: documents, index rows, nodes, links
//! and embeddings, each by which rows there are before and after.

use vstd::prelude::*;

use crate::db;
use crate::db::{ChunkRowView, DbView, EmbeddingRowView};
use crate::document::DocumentView;
use crate::graph::{EdgeView, NodeKind, NodeView};
use crate::table;

verus! {

// ---------------------------------------------------------------------------
// Documents
// ---------------------------------------------------------------------------

/// Whether `id` is that of the first document with a content hash, if there is any.
pub open spec fn is_first_with_hash(
    docs: Seq<DocumentView>,
    hash: Seq<char>,
    id: Option<Seq<char>>,
) -> bool {
    match id {
        Some(found) => exists|i: int|
            0 <= i < docs.len() && (#[trigger] docs[i]).content_hash == hash && docs[i].id == found
                && forall|j: int| 0 <= j < i ==> (#[trigger] docs[j]).content_hash != hash,
        None => forall|j: int| 0 <= j < docs.len() ==> (#[trigger] docs[j]).content_hash != hash,
    }
}

/// Whether `id` is that of the first document with a path, if there is any.
pub open spec fn is_first_with_path(
    docs: Seq<DocumentView>,
    path: Seq<char>,
    id: Option<Seq<char>>,
) -> bool {
    match id {
        Some(found) => exists|i: int|
            0 <= i < docs.len() && (#[trigger] docs[i]).path == path && docs[i].id == found
                && forall|j: int| 0 <= j < i ==> (#[trigger] docs[j]).path != path,
        None => forall|j: int| 0 <= j < docs.len() ==> (#[trigger] docs[j]).path != path,
    }
}

/// A document is found by its content hash exactly where one has it.
pub proof fn documents_are_found_by_hash(docs: Seq<DocumentView>, hash: Seq<char>)
    ensures
        is_first_with_hash(
            docs,
            hash,
            db::id_at(docs, table::first_where(docs, db::doc_has_hash(hash))),
        ),
{
    let p = db::doc_has_hash(hash);
    table::lemma_first_from(docs, p, 0);
    match table::first_where(docs, p) {
        Some(i) => {
            assert(docs[i].content_hash == hash);
            assert forall|j: int| 0 <= j < i implies (#[trigger] docs[j]).content_hash != hash by {
                assert(!p(docs[j]));
            }
        },
        None => {
            assert forall|j: int| 0 <= j < docs.len() implies (#[trigger] docs[j]).content_hash
                != hash by {
                assert(!p(docs[j]));
            }
        },
    }
}

/// A document is found by its path exactly where one has it.
pub proof fn documents_are_found_by_path(docs: Seq<DocumentView>, path: Seq<char>)
    ensures
        is_first_with_path(
            docs,
            path,
            db::id_at(docs, table::first_where(docs, db::doc_has_path(path))),
        ),
{
    let p = db::doc_has_path(path);
    table::lemma_first_from(docs, p, 0);
    match table::first_where(docs, p) {
        Some(i) => {
            assert(docs[i].path == path);
            assert forall|j: int| 0 <= j < i implies (#[trigger] docs[j]).path != path by {
                assert(!p(docs[j]));
            }
        },
        None => {
            assert forall|j: int| 0 <= j < docs.len() implies (#[trigger] docs[j]).path != path by {
                assert(!p(docs[j]));
            }
        },
    }
}

/// Whether `after` is the store with a document stored: that one, in place of any with
/// its identifier, and all others; nothing else changes.
pub open spec fn is_store_with(before: DbView, doc: DocumentView, after: DbView) -> bool {
    &&& forall|d: DocumentView| #[trigger]
        after.documents.contains(d) <==> d == doc || (before.documents.contains(d) && d.id
            != doc.id)
    &&& after.documents.len() > 0 && after.documents.last() == doc
    &&& after.chunks == before.chunks
    &&& after.nodes == before.nodes
    &&& after.edges == before.edges
    &&& after.embeddings == before.embeddings
}

/// Storing a document replaces the one with its identifier and touches nothing else.
pub proof fn storing_replaces_the_document(store: DbView, doc: DocumentView)
    ensures
        is_store_with(store, doc, db::with_document(store, doc)),
{
    let after = db::with_document(store, doc);
    let p = db::doc_lacks_id(doc.id);
    let kept = store.documents.filter(p);
    table::lemma_filter_holds(store.documents, p);
    assert forall|d: DocumentView| #[trigger]
        after.documents.contains(d) <==> d == doc || (store.documents.contains(d) && d.id
            != doc.id) by {
        assert(kept.contains(d) <==> store.documents.contains(d) && p(d));
        if after.documents.contains(d) {
            let i = choose|i: int| 0 <= i < after.documents.len() && after.documents[i] == d;
            if i < kept.len() {
                assert(kept[i] == d);
            }
        }
        if kept.contains(d) {
            let i = choose|i: int| 0 <= i < kept.len() && kept[i] == d;
            assert(after.documents[i] == d);
        }
        assert(after.documents[kept.len() as int] == doc);
    }
}

// ---------------------------------------------------------------------------
// Index rows and embeddings
// ---------------------------------------------------------------------------

/// Indexing appends a row for each chunk, with its title and content; taking a
/// document's rows from the index leaves exactly those of the others.
pub proof fn index_rows_belong_to_documents(
    store: DbView,
    chunks: Seq<crate::chunk::ChunkView>,
    doc_id: Seq<char>,
)
    ensures
        ({
            let more = db::with_chunks(store, chunks).chunks;
            let less = db::without_chunks(store, doc_id).chunks;
            &&& more.len() == store.chunks.len() + chunks.len()
            &&& more.take(store.chunks.len() as int) == store.chunks
            &&& forall|i: int|
                0 <= i < chunks.len() ==> {
                    let row = more[store.chunks.len() + i];
                    &&& row.doc_id == (#[trigger] chunks[i]).doc_id
                    &&& row.title == chunks[i].title
                    &&& row.content == chunks[i].content
                }
            &&& forall|c: ChunkRowView| #[trigger]
                less.contains(c) <==> store.chunks.contains(c) && c.doc_id != doc_id
        }),
{
    assert(db::with_chunks(store, chunks).chunks.take(store.chunks.len() as int) =~= store.chunks);
    table::lemma_filter_holds(store.chunks, db::chunk_of_other(doc_id));
}

/// Storing an embedding replaces the one of its chunk; taking those of a document leaves
/// exactly those of the others.
pub proof fn embeddings_belong_to_chunks(store: DbView, e: EmbeddingRowView, doc_id: Seq<char>)
    ensures
        ({
            let more = db::with_embedding(store, e).embeddings;
            let less = db::without_embeddings(store, doc_id).embeddings;
            &&& forall|o: EmbeddingRowView| #[trigger]
                more.contains(o) <==> o == e || (store.embeddings.contains(o) && (o.doc_id
                    != e.doc_id || o.chunk_id != e.chunk_id))
            &&& forall|o: EmbeddingRowView| #[trigger]
                less.contains(o) <==> store.embeddings.contains(o) && o.doc_id != doc_id
        }),
{
    let more = db::with_embedding(store, e).embeddings;
    let p = db::embedding_beside(e.doc_id, e.chunk_id);
    let kept = store.embeddings.filter(p);
    table::lemma_filter_holds(store.embeddings, p);
    table::lemma_filter_holds(store.embeddings, db::embedding_of_other(doc_id));
    assert forall|o: EmbeddingRowView| #[trigger]
        more.contains(o) <==> o == e || (store.embeddings.contains(o) && (o.doc_id != e.doc_id
            || o.chunk_id != e.chunk_id)) by {
        assert(kept.contains(o) <==> store.embeddings.contains(o) && p(o));
        if more.contains(o) {
            let i = choose|i: int| 0 <= i < more.len() && more[i] == o;
            if i < kept.len() {
                assert(kept[i] == o);
            }
        }
        if kept.contains(o) {
            let i = choose|i: int| 0 <= i < kept.len() && kept[i] == o;
            assert(more[i] == o);
        }
        assert(more[kept.len() as int] == e);
    }
}

// ---------------------------------------------------------------------------
// Nodes
// ---------------------------------------------------------------------------

/// Whether `after` are the nodes once one has occurred: where its identifier is known,
/// that node counts one occurrence more and is otherwise what it was; where it is not,
/// the node is added with one occurrence.
pub open spec fn is_occurrence(before: Seq<NodeView>, n: NodeView, after: Seq<NodeView>) -> bool {
    ||| exists|k: int|
        {
            &&& 0 <= k < before.len()
            &&& (#[trigger] before[k]).id == n.id
            &&& after.len() == before.len()
            &&& after[k].id == n.id
            &&& after[k].label == before[k].label
            &&& after[k].kind == before[k].kind
            &&& after[k].doc_id == before[k].doc_id
            &&& after[k].frequency == before[k].frequency + 1 || (after[k].frequency == u32::MAX
                && before[k].frequency == u32::MAX)
            &&& forall|i: int| 0 <= i < before.len() && i != k ==> after[i] == #[trigger] before[i]
        }
    ||| {
        &&& forall|i: int| 0 <= i < before.len() ==> (#[trigger] before[i]).id != n.id
        &&& after.len() == before.len() + 1
        &&& after.take(before.len() as int) == before
        &&& after.last().id == n.id
        &&& after.last().label == n.label
        &&& after.last().kind == n.kind
        &&& after.last().doc_id == n.doc_id
        &&& after.last().frequency == 1
    }
}

/// A node that occurs is counted, and no other node is touched.
pub proof fn occurrences_are_counted(nodes: Seq<NodeView>, n: NodeView)
    ensures
        is_occurrence(nodes, n, db::nodes_with(nodes, n)),
{
    let after = db::nodes_with(nodes, n);
    let p = db::node_has_id(n.id);
    table::lemma_first_from(nodes, p, 0);
    match table::first_where(nodes, p) {
        Some(k) => {
            assert(nodes[k].id == n.id);
            assert forall|i: int| 0 <= i < nodes.len() && i != k implies after[i]
                == #[trigger] nodes[i] by {}
        },
        None => {
            assert forall|i: int| 0 <= i < nodes.len() implies (#[trigger] nodes[i]).id != n.id by {
                assert(!p(nodes[i]));
            }
            assert(after.take(nodes.len() as int) =~= nodes);
        },
    }
}

/// Whether an edge of a document joins the node to another.
pub open spec fn is_linked_by(edges: Seq<EdgeView>, doc_id: Seq<char>, id: Seq<char>) -> bool {
    exists|e: EdgeView| #[trigger]
        edges.contains(e) && e.doc_id == doc_id && (e.source == id || e.target == id)
}

/// Whether an edge of any other document joins the node to another.
pub open spec fn is_linked_elsewhere(
    edges: Seq<EdgeView>,
    doc_id: Seq<char>,
    id: Seq<char>,
) -> bool {
    exists|e: EdgeView| #[trigger]
        edges.contains(e) && e.doc_id != doc_id && (e.source == id || e.target == id)
}

/// Whether `after` is the store without the graph of a document: without its edges, its
/// own node and the nodes that belong to no document and that it alone linked.
pub open spec fn is_store_without_graph(before: DbView, doc_id: Seq<char>, after: DbView) -> bool {
    &&& forall|e: EdgeView| #[trigger]
        after.edges.contains(e) <==> before.edges.contains(e) && e.doc_id != doc_id
    &&& forall|n: NodeView| #[trigger]
        after.nodes.contains(n) <==> before.nodes.contains(n) && n.id != "doc_"@ + doc_id && (
        n.kind == NodeKind::Document || n.doc_id is Some || is_linked_elsewhere(
            before.edges,
            doc_id,
            n.id,
        ) || !is_linked_by(before.edges, doc_id, n.id))
    &&& after.documents == before.documents
    &&& after.chunks == before.chunks
    &&& after.embeddings == before.embeddings
}

proof fn lemma_linked(edges: Seq<EdgeView>, doc_id: Seq<char>, id: Seq<char>)
    ensures
        table::any_where(edges.filter(db::edge_of(doc_id)), db::edge_at(id)) == is_linked_by(
            edges,
            doc_id,
            id,
        ),
        table::any_where(edges.filter(db::edge_of_other(doc_id)), db::edge_at(id))
            == is_linked_elsewhere(edges, doc_id, id),
{
    let here = edges.filter(db::edge_of(doc_id));
    let there = edges.filter(db::edge_of_other(doc_id));
    let at = db::edge_at(id);
    table::lemma_filter_holds(edges, db::edge_of(doc_id));
    table::lemma_filter_holds(edges, db::edge_of_other(doc_id));
    if table::any_where(here, at) {
        let i = choose|i: int| 0 <= i < here.len() && at(#[trigger] here[i]);
        assert(here.contains(here[i]));
        assert(edges.contains(here[i]));
    }
    if is_linked_by(edges, doc_id, id) {
        let e = choose|e: EdgeView| #[trigger]
            edges.contains(e) && e.doc_id == doc_id && (e.source == id || e.target == id);
        assert(here.contains(e));
        let i = choose|i: int| 0 <= i < here.len() && here[i] == e;
        assert(at(here[i]));
    }
    if table::any_where(there, at) {
        let i = choose|i: int| 0 <= i < there.len() && at(#[trigger] there[i]);
        assert(there.contains(there[i]));
        assert(edges.contains(there[i]));
    }
    if is_linked_elsewhere(edges, doc_id, id) {
        let e = choose|e: EdgeView| #[trigger]
            edges.contains(e) && e.doc_id != doc_id && (e.source == id || e.target == id);
        assert(there.contains(e));
        let i = choose|i: int| 0 <= i < there.len() && there[i] == e;
        assert(at(there[i]));
    }
}

/// Deleting the graph of a document takes what the document alone put there, and nothing
/// that another document still links.
pub proof fn deleted_graphs_take_their_own(store: DbView, doc_id: Seq<char>)
    ensures
        is_store_without_graph(store, doc_id, db::without_graph(store, doc_id)),
{
    let after = db::without_graph(store, doc_id);
    let stays = db::node_outlasts(store.edges, doc_id);
    table::lemma_filter_holds(store.edges, db::edge_of_other(doc_id));
    table::lemma_filter_holds(store.nodes, stays);
    assert forall|n: NodeView| #[trigger]
        after.nodes.contains(n) <==> store.nodes.contains(n) && n.id != "doc_"@ + doc_id && (n.kind
            == NodeKind::Document || n.doc_id is Some || is_linked_elsewhere(
            store.edges,
            doc_id,
            n.id,
        ) || !is_linked_by(store.edges, doc_id, n.id)) by {
        assert(after.nodes.contains(n) <==> store.nodes.contains(n) && stays(n));
        lemma_linked(store.edges, doc_id, n.id);
    }
}

// ---------------------------------------------------------------------------
// Links
// ---------------------------------------------------------------------------

/// Whether `links` are the edges that leave a node, in their order, each by its target,
/// relation and weight.
pub open spec fn are_links_from(
    edges: Seq<EdgeView>,
    id: Seq<char>,
    links: Seq<(Seq<char>, Seq<char>, u32)>,
) -> bool {
    exists|places: Seq<int>|
        {
            &&& #[trigger] places.len() == links.len()
            &&& forall|a: int, b: int| 0 <= a < b < places.len() ==> places[a] < places[b]
            &&& forall|a: int|
                0 <= a < places.len() ==> {
                    &&& 0 <= #[trigger] places[a] < edges.len()
                    &&& edges[places[a]].source == id
                    &&& links[a] == (
                        edges[places[a]].target,
                        edges[places[a]].relation,
                        edges[places[a]].weight,
                    )
                }
            &&& forall|i: int|
                0 <= i < edges.len() && (#[trigger] edges[i]).source == id ==> places.contains(i)
        }
}

/// Whether `links` are the edges that enter a node, in their order, each by its source,
/// relation and weight.
pub open spec fn are_links_to(
    edges: Seq<EdgeView>,
    id: Seq<char>,
    links: Seq<(Seq<char>, Seq<char>, u32)>,
) -> bool {
    exists|places: Seq<int>|
        {
            &&& #[trigger] places.len() == links.len()
            &&& forall|a: int, b: int| 0 <= a < b < places.len() ==> places[a] < places[b]
            &&& forall|a: int|
                0 <= a < places.len() ==> {
                    &&& 0 <= #[trigger] places[a] < edges.len()
                    &&& edges[places[a]].target == id
                    &&& links[a] == (
                        edges[places[a]].source,
                        edges[places[a]].relation,
                        edges[places[a]].weight,
                    )
                }
            &&& forall|i: int|
                0 <= i < edges.len() && (#[trigger] edges[i]).target == id ==> places.contains(i)
        }
}

/// The links of a node are the edges that leave it and those that enter it, none left
/// out.
pub proof fn links_are_the_edges_of_a_node(edges: Seq<EdgeView>, id: Seq<char>)
    ensures
        are_links_from(edges, id, db::links_from(edges, id)),
        are_links_to(edges, id, db::links_to(edges, id)),
{
    let out = table::lemma_filter_places(edges, db::edge_from(id));
    let into = table::lemma_filter_places(edges, db::edge_to(id));
    assert(out.len() == db::links_from(edges, id).len());
    assert(into.len() == db::links_to(edges, id).len());
    assert forall|a: int| 0 <= a < out.len() implies 0 <= #[trigger] out[a] < edges.len()
        && edges[out[a]].source == id && db::links_from(edges, id)[a] == (
        edges[out[a]].target,
        edges[out[a]].relation,
        edges[out[a]].weight,
    ) by {
        assert(db::edge_from(id)(edges[out[a]]));
    }
    assert forall|i: int| 0 <= i < edges.len() && (#[trigger] edges[i]).source
        == id implies out.contains(i) by {
        assert(db::edge_from(id)(edges[i]));
    }
    assert forall|a: int| 0 <= a < into.len() implies 0 <= #[trigger] into[a] < edges.len()
        && edges[into[a]].target == id && db::links_to(edges, id)[a] == (
        edges[into[a]].source,
        edges[into[a]].relation,
        edges[into[a]].weight,
    ) by {
        assert(db::edge_to(id)(edges[into[a]]));
    }
    assert forall|i: int| 0 <= i < edges.len() && (#[trigger] edges[i]).target
        == id implies into.contains(i) by {
        assert(db::edge_to(id)(edges[i]));
    }
}

} // verus!
