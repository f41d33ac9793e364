//! The store: its tables, and what each operation reads from and does to them.
//!
//! A store holds its rows in memory; loading them from the database file and
//! saving them is left to the program around the library.

use vstd::prelude::*;

use crate::chunk;
use crate::chunk::Chunk;
use crate::document;
use crate::document::{Document, DocumentView};
use crate::error::{MksError, MksResult};
use crate::graph;
use crate::graph::{Confidence, Edge, EdgeView, GraphStats, Node, NodeKind, NodeView};
use crate::order;
use crate::reads;
use crate::search::{SearchResult, SearchResultView};
use crate::table;
use crate::text;
use crate::traverse;
use crate::writes;

verus! {

// ---------------------------------------------------------------------------
// Rows
// ---------------------------------------------------------------------------

/// A row of the full-text index.
#[derive(Debug)]
pub struct ChunkRow {
    pub doc_id: String,
    pub title: String,
    pub content: String,
}

/// What a row of the full-text index holds.
pub struct ChunkRowView {
    pub doc_id: Seq<char>,
    pub title: Seq<char>,
    pub content: Seq<char>,
}

impl View for ChunkRow {
    type V = ChunkRowView;

    open spec fn view(&self) -> ChunkRowView {
        ChunkRowView { doc_id: self.doc_id@, title: self.title@, content: self.content@ }
    }
}

/// A stored embedding: the vector of a chunk, as JSON text.
#[derive(Debug)]
pub struct EmbeddingRow {
    pub doc_id: String,
    pub chunk_id: String,
    pub vector: String,
}

/// What a stored embedding holds.
pub struct EmbeddingRowView {
    pub doc_id: Seq<char>,
    pub chunk_id: Seq<char>,
    pub vector: Seq<char>,
}

impl View for EmbeddingRow {
    type V = EmbeddingRowView;

    open spec fn view(&self) -> EmbeddingRowView {
        EmbeddingRowView { doc_id: self.doc_id@, chunk_id: self.chunk_id@, vector: self.vector@ }
    }
}

impl Clone for EmbeddingRow {
    fn clone(&self) -> (r: Self)
        ensures
            r == *self,
    {
        EmbeddingRow {
            doc_id: self.doc_id.clone(),
            chunk_id: self.chunk_id.clone(),
            vector: self.vector.clone(),
        }
    }
}

/// A row of the full-text index that matches a query.
#[derive(Debug)]
pub struct ChunkMatch {
    pub doc_id: String,
    pub title: String,
    pub snippet: Option<String>,
}

/// What a matching row holds.
pub struct ChunkMatchView {
    pub doc_id: Seq<char>,
    pub title: Seq<char>,
    pub snippet: Option<Seq<char>>,
}

impl View for ChunkMatch {
    type V = ChunkMatchView;

    open spec fn view(&self) -> ChunkMatchView {
        ChunkMatchView {
            doc_id: self.doc_id@,
            title: self.title@,
            snippet: document::opt_view(self.snippet),
        }
    }
}

/// The store's tables, each with its rows in the order of insertion.
#[derive(Debug)]
pub struct Db {
    pub documents: Vec<Document>,
    pub chunks: Vec<ChunkRow>,
    pub nodes: Vec<Node>,
    pub edges: Vec<Edge>,
    pub embeddings: Vec<EmbeddingRow>,
}

/// What the store's tables hold.
pub struct DbView {
    pub documents: Seq<DocumentView>,
    pub chunks: Seq<ChunkRowView>,
    pub nodes: Seq<NodeView>,
    pub edges: Seq<EdgeView>,
    pub embeddings: Seq<EmbeddingRowView>,
}

impl View for Db {
    type V = DbView;

    open spec fn view(&self) -> DbView {
        DbView {
            documents: table::rows(self.documents@),
            chunks: table::rows(self.chunks@),
            nodes: table::rows(self.nodes@),
            edges: table::rows(self.edges@),
            embeddings: table::rows(self.embeddings@),
        }
    }
}

/// Store-wide counts.
#[derive(Debug)]
pub struct StoreStats {
    pub total_docs: usize,
    pub total_chunks: usize,
    pub total_nodes: usize,
    pub total_edges: usize,
    pub collections: Vec<(String, usize)>,
}

// ---------------------------------------------------------------------------
// Conditions on rows
// ---------------------------------------------------------------------------

/// Documents with the identifier.
pub open spec fn doc_has_id(id: Seq<char>) -> spec_fn(DocumentView) -> bool {
    |d: DocumentView| d.id == id
}

/// Documents without the identifier.
pub open spec fn doc_lacks_id(id: Seq<char>) -> spec_fn(DocumentView) -> bool {
    |d: DocumentView| d.id != id
}

/// Documents with the content hash.
pub open spec fn doc_has_hash(hash: Seq<char>) -> spec_fn(DocumentView) -> bool {
    |d: DocumentView| d.content_hash == hash
}

/// Documents with the path.
pub open spec fn doc_has_path(path: Seq<char>) -> spec_fn(DocumentView) -> bool {
    |d: DocumentView| d.path == path
}

/// Documents of the collection; all of them where none is given.
pub open spec fn doc_in(collection: Option<Seq<char>>) -> spec_fn(DocumentView) -> bool {
    |d: DocumentView|
        match collection {
            Some(c) => d.collection == c,
            None => true,
        }
}

/// Index rows of other documents.
pub open spec fn chunk_of_other(doc_id: Seq<char>) -> spec_fn(ChunkRowView) -> bool {
    |c: ChunkRowView| c.doc_id != doc_id
}

/// Nodes with the identifier.
pub open spec fn node_has_id(id: Seq<char>) -> spec_fn(NodeView) -> bool {
    |n: NodeView| n.id == id
}

/// Nodes of the kind.
pub open spec fn node_of_kind(kind: NodeKind) -> spec_fn(NodeView) -> bool {
    |n: NodeView| n.kind == kind
}

/// Edges of the document.
pub open spec fn edge_of(doc_id: Seq<char>) -> spec_fn(EdgeView) -> bool {
    |e: EdgeView| e.doc_id == doc_id
}

/// Edges of other documents.
pub open spec fn edge_of_other(doc_id: Seq<char>) -> spec_fn(EdgeView) -> bool {
    |e: EdgeView| e.doc_id != doc_id
}

/// Edges that leave or enter the node.
pub open spec fn edge_at(id: Seq<char>) -> spec_fn(EdgeView) -> bool {
    |e: EdgeView| e.source == id || e.target == id
}

/// Whether a node is orphaned when a document's edges are deleted: the document
/// links it, and no other document does.
pub open spec fn is_orphaned(edges: Seq<EdgeView>, doc_id: Seq<char>, id: Seq<char>) -> bool {
    table::any_where(edges.filter(edge_of(doc_id)), edge_at(id)) && !table::any_where(
        edges.filter(edge_of_other(doc_id)),
        edge_at(id),
    )
}

/// Nodes that stay when a document's graph is deleted: all but the document's
/// own node and those that are orphaned and belong to no document.
pub open spec fn node_outlasts(edges: Seq<EdgeView>, doc_id: Seq<char>) -> spec_fn(
    NodeView,
) -> bool {
    |n: NodeView|
        n.id != graph::doc_node_id(doc_id) && !(n.kind != NodeKind::Document && n.doc_id is None
            && is_orphaned(edges, doc_id, n.id))
}

/// Edges that leave the node.
pub open spec fn edge_from(id: Seq<char>) -> spec_fn(EdgeView) -> bool {
    |e: EdgeView| e.source == id
}

/// Edges that enter the node.
pub open spec fn edge_to(id: Seq<char>) -> spec_fn(EdgeView) -> bool {
    |e: EdgeView| e.target == id
}

/// Edges of the confidence.
pub open spec fn edge_of_confidence(confidence: Confidence) -> spec_fn(EdgeView) -> bool {
    |e: EdgeView| e.confidence == confidence
}

/// Embeddings of the document.
pub open spec fn embedding_of(doc_id: Seq<char>) -> spec_fn(EmbeddingRowView) -> bool {
    |e: EmbeddingRowView| e.doc_id == doc_id
}

/// Embeddings of other documents.
pub open spec fn embedding_of_other(doc_id: Seq<char>) -> spec_fn(EmbeddingRowView) -> bool {
    |e: EmbeddingRowView| e.doc_id != doc_id
}

/// Embeddings of other chunks.
pub open spec fn embedding_beside(doc_id: Seq<char>, chunk_id: Seq<char>) -> spec_fn(
    EmbeddingRowView,
) -> bool {
    |e: EmbeddingRowView| !(e.doc_id == doc_id && e.chunk_id == chunk_id)
}

// ---------------------------------------------------------------------------
// What the operations do to the tables
// ---------------------------------------------------------------------------

/// A store without rows.
pub open spec fn empty_db() -> DbView {
    DbView {
        documents: Seq::empty(),
        chunks: Seq::empty(),
        nodes: Seq::empty(),
        edges: Seq::empty(),
        embeddings: Seq::empty(),
    }
}

/// The store with a document in place of those with its identifier.
pub open spec fn with_document(db: DbView, doc: DocumentView) -> DbView {
    DbView { documents: db.documents.filter(doc_lacks_id(doc.id)).push(doc), ..db }
}

/// The index row of a chunk.
pub open spec fn chunk_row(c: chunk::ChunkView) -> ChunkRowView {
    ChunkRowView { doc_id: c.doc_id, title: c.title, content: c.content }
}

/// The store with index rows for the chunks.
pub open spec fn with_chunks(db: DbView, chunks: Seq<chunk::ChunkView>) -> DbView {
    DbView {
        chunks: db.chunks + Seq::new(chunks.len(), |i: int| chunk_row(chunks[i])),
        ..db
    }
}

/// The store without the index rows of a document.
pub open spec fn without_chunks(db: DbView, doc_id: Seq<char>) -> DbView {
    DbView { chunks: db.chunks.filter(chunk_of_other(doc_id)), ..db }
}

/// A node that has occurred once more.
pub open spec fn recurred(n: NodeView) -> NodeView {
    NodeView {
        frequency: if n.frequency < u32::MAX {
            (n.frequency + 1) as u32
        } else {
            u32::MAX
        },
        ..n
    }
}

/// The nodes after one more occurrence of a node: its frequency grows by one,
/// or it is added with frequency one.
pub open spec fn nodes_with(nodes: Seq<NodeView>, n: NodeView) -> Seq<NodeView> {
    match table::first_where(nodes, node_has_id(n.id)) {
        Some(i) => nodes.update(i, recurred(nodes[i])),
        None => nodes.push(NodeView { frequency: 1, ..n }),
    }
}

/// The nodes after one more occurrence of each of the first `k` added nodes.
pub open spec fn nodes_with_all(nodes: Seq<NodeView>, added: Seq<NodeView>, k: int) -> Seq<
    NodeView,
>
    decreases k,
{
    if k <= 0 {
        nodes
    } else {
        nodes_with(nodes_with_all(nodes, added, k - 1), added[k - 1])
    }
}

/// The store with one more occurrence of a node.
pub open spec fn with_node(db: DbView, n: NodeView) -> DbView {
    DbView { nodes: nodes_with(db.nodes, n), ..db }
}

/// The store with an edge more.
pub open spec fn with_edge(db: DbView, e: EdgeView) -> DbView {
    DbView { edges: db.edges.push(e), ..db }
}

/// The store with the nodes and edges of a graph added.
pub open spec fn with_graph(db: DbView, nodes: Seq<NodeView>, edges: Seq<EdgeView>) -> DbView {
    DbView {
        nodes: nodes_with_all(db.nodes, nodes, nodes.len() as int),
        edges: db.edges + edges,
        ..db
    }
}

/// The store without the graph of a document.
pub open spec fn without_graph(db: DbView, doc_id: Seq<char>) -> DbView {
    DbView {
        edges: db.edges.filter(edge_of_other(doc_id)),
        nodes: db.nodes.filter(node_outlasts(db.edges, doc_id)),
        ..db
    }
}

/// The store without a document, its index rows and its graph.
pub open spec fn without_document(db: DbView, id: Seq<char>) -> DbView {
    let rest = without_graph(without_chunks(db, id), id);
    DbView { documents: rest.documents.filter(doc_lacks_id(id)), ..rest }
}

/// The content of an optional string slice.
pub open spec fn opt_str(s: Option<&str>) -> Option<Seq<char>> {
    match s {
        Some(t) => Some(t@),
        None => None,
    }
}

/// The identifier of a row's document, where there is a row.
pub open spec fn id_at(docs: Seq<DocumentView>, at: Option<int>) -> Option<Seq<char>> {
    match at {
        Some(i) => Some(docs[i].id),
        None => None,
    }
}

/// When the documents were added.
pub open spec fn instants(docs: Seq<DocumentView>) -> Seq<int> {
    Seq::new(docs.len(), |i: int| document::instant(docs[i].added_at))
}

/// The first `limit` rows, or all of them.
pub open spec fn limited<V>(s: Seq<V>, limit: int) -> Seq<V> {
    if s.len() <= limit {
        s
    } else {
        s.take(limit)
    }
}

/// The documents of a collection, newest first.
pub open spec fn newest_first(db: DbView, collection: Option<Seq<char>>) -> Seq<DocumentView> {
    let docs = db.documents.filter(doc_in(collection));
    order::sorted_desc(docs, instants(docs))
}

/// Nodes whose label equals the text but for letter case.
pub open spec fn label_is(label: Seq<char>) -> spec_fn(NodeView) -> bool {
    |n: NodeView| text::lowercase_of(n.label) == text::lowercase_of(label)
}

/// Nodes whose label begins with the text but for letter case.
pub open spec fn label_begins(label: Seq<char>) -> spec_fn(NodeView) -> bool {
    |n: NodeView| text::begins_with(text::lowercase_of(n.label), text::lowercase_of(label))
}

/// Nodes whose label contains the text but for letter case.
pub open spec fn label_holds(label: Seq<char>) -> spec_fn(NodeView) -> bool {
    |n: NodeView|
        text::find_in(text::lowercase_of(n.label), text::lowercase_of(label)) is Some
}

/// The node that a label stands for: the first with that label, else the first
/// whose label begins with it, else the first whose label contains it.
pub open spec fn labelled(nodes: Seq<NodeView>, label: Seq<char>) -> Option<int> {
    match table::first_where(nodes, label_is(label)) {
        Some(i) => Some(i),
        None => match table::first_where(nodes, label_begins(label)) {
            Some(i) => Some(i),
            None => table::first_where(nodes, label_holds(label)),
        },
    }
}

/// The identifiers of the nodes.
pub open spec fn node_ids(nodes: Seq<NodeView>) -> Seq<Seq<char>> {
    Seq::new(nodes.len(), |i: int| nodes[i].id)
}

/// The other end, relation and weight of a list of links.
pub open spec fn link_views(v: Seq<(String, String, u32)>) -> Seq<(Seq<char>, Seq<char>, u32)> {
    Seq::new(v.len(), |i: int| (v[i].0@, v[i].1@, v[i].2))
}

/// The targets of the edges that leave a node.
pub open spec fn links_from(edges: Seq<EdgeView>, id: Seq<char>) -> Seq<
    (Seq<char>, Seq<char>, u32),
> {
    let out = edges.filter(edge_from(id));
    Seq::new(out.len(), |i: int| (out[i].target, out[i].relation, out[i].weight))
}

/// The sources of the edges that enter a node.
pub open spec fn links_to(edges: Seq<EdgeView>, id: Seq<char>) -> Seq<
    (Seq<char>, Seq<char>, u32),
> {
    let into = edges.filter(edge_to(id));
    Seq::new(into.len(), |i: int| (into[i].source, into[i].relation, into[i].weight))
}

/// How many edges leave and enter a node, as far as a machine word can tell.
pub open spec fn degree_of(edges: Seq<EdgeView>, id: Seq<char>) -> usize {
    let total = table::count_where(edges, edge_from(id)) + table::count_where(edges, edge_to(id));
    if total <= usize::MAX {
        total as usize
    } else {
        usize::MAX
    }
}

/// Document nodes that no edge leaves.
pub open spec fn unlinked_doc(edges: Seq<EdgeView>) -> spec_fn(NodeView) -> bool {
    |n: NodeView| n.kind == NodeKind::Document && !table::any_where(edges, edge_from(n.id))
}

/// The counts of a store's graph.
pub open spec fn is_graph_stats(db: DbView, s: GraphStats) -> bool {
    &&& s.total_nodes == db.nodes.len()
    &&& s.doc_nodes == table::count_where(db.nodes, node_of_kind(NodeKind::Document))
    &&& s.wikilink_nodes == table::count_where(db.nodes, node_of_kind(NodeKind::WikiLink))
    &&& s.tag_nodes == table::count_where(db.nodes, node_of_kind(NodeKind::Tag))
    &&& s.total_edges == db.edges.len()
    &&& s.extracted_edges == table::count_where(
        db.edges,
        edge_of_confidence(Confidence::Extracted),
    )
    &&& s.inferred_edges == table::count_where(db.edges, edge_of_confidence(Confidence::Inferred))
    &&& s.ambiguous_edges == table::count_where(
        db.edges,
        edge_of_confidence(Confidence::Ambiguous),
    )
    &&& s.isolated_docs == table::count_where(db.nodes, unlinked_doc(db.edges))
}

/// Documents without an embedding.
pub open spec fn doc_unembedded(embeddings: Seq<EmbeddingRowView>) -> spec_fn(
    DocumentView,
) -> bool {
    |d: DocumentView| !table::any_where(embeddings, embedding_of(d.id))
}

/// The identifiers of the documents.
pub open spec fn doc_ids(docs: Seq<DocumentView>) -> Seq<Seq<char>> {
    Seq::new(docs.len(), |i: int| docs[i].id)
}

/// The store with an embedding in place of that of the same chunk.
pub open spec fn with_embedding(db: DbView, e: EmbeddingRowView) -> DbView {
    DbView {
        embeddings: db.embeddings.filter(embedding_beside(e.doc_id, e.chunk_id)).push(e),
        ..db
    }
}

/// The store without the embeddings of a document.
pub open spec fn without_embeddings(db: DbView, doc_id: Seq<char>) -> DbView {
    DbView { embeddings: db.embeddings.filter(embedding_of_other(doc_id)), ..db }
}

/// The collections of the documents.
pub open spec fn collections_of(docs: Seq<DocumentView>) -> Seq<Seq<char>> {
    Seq::new(docs.len(), |i: int| docs[i].collection)
}

/// Each collection with the number of its documents, in the order of the names.
pub open spec fn collection_counts(docs: Seq<DocumentView>) -> Seq<(Seq<char>, int)> {
    let names = table::distinct(collections_of(docs));
    let sorted = order::sorted_by_text(names, names);
    Seq::new(
        sorted.len(),
        |i: int| (sorted[i], table::count_where(docs, doc_in(Some(sorted[i]))) as int),
    )
}

/// The contents of a list of names with counts.
pub open spec fn count_views(v: Seq<(String, usize)>) -> Seq<(Seq<char>, int)> {
    Seq::new(v.len(), |i: int| (v[i].0@, v[i].1 as int))
}

/// The search results of the first `n` matching rows: those whose document is
/// stored, in the collection if one is given.
pub open spec fn results_upto(
    db: DbView,
    ranked: Seq<ChunkMatchView>,
    collection: Option<Seq<char>>,
    with_snippets: bool,
    n: int,
) -> Seq<SearchResultView>
    decreases n,
{
    if n <= 0 {
        Seq::empty()
    } else {
        let before = results_upto(db, ranked, collection, with_snippets, n - 1);
        let row = ranked[n - 1];
        match table::first_where(db.documents, doc_has_id(row.doc_id)) {
            Some(i) => if doc_in(collection)(db.documents[i]) {
                before.push(
                    SearchResultView {
                        doc_id: row.doc_id,
                        title: row.title,
                        snippet: if with_snippets {
                            row.snippet
                        } else {
                            None
                        },
                        collection: Some(db.documents[i].collection),
                    },
                )
            } else {
                before
            },
            None => before,
        }
    }
}

/// Whether one of the results is of the document.
pub open spec fn has_result(results: Seq<SearchResultView>, doc_id: Seq<char>) -> bool {
    exists|i: int| 0 <= i < results.len() && (#[trigger] results[i]).doc_id == doc_id
}

/// The first result of each document.
pub open spec fn one_per_document(results: Seq<SearchResultView>) -> Seq<SearchResultView>
    decreases results.len(),
{
    if results.len() == 0 {
        Seq::empty()
    } else if has_result(results.drop_last(), results.last().doc_id) {
        one_per_document(results.drop_last())
    } else {
        one_per_document(results.drop_last()).push(results.last())
    }
}

/// All results of a full-text search whose matching rows are given best first,
/// one for each document.
pub open spec fn fts_found(
    db: DbView,
    ranked: Seq<ChunkMatchView>,
    collection: Option<Seq<char>>,
    with_snippets: bool,
) -> Seq<SearchResultView> {
    one_per_document(results_upto(db, ranked, collection, with_snippets, ranked.len() as int))
}

/// The first results of a full-text search whose matching rows are given best
/// first.
pub open spec fn fts_results(
    db: DbView,
    ranked: Seq<ChunkMatchView>,
    limit: int,
    collection: Option<Seq<char>>,
    with_snippets: bool,
) -> Seq<SearchResultView> {
    limited(fts_found(db, ranked, collection, with_snippets), limit)
}

/// Dropping repeats takes results one by one.
proof fn lemma_one_per_document(results: Seq<SearchResultView>, n: int)
    requires
        0 <= n <= results.len(),
    ensures
        one_per_document(results.take(n)).len() <= one_per_document(results).len(),
        one_per_document(results).take(one_per_document(results.take(n)).len() as int)
            == one_per_document(results.take(n)),
    decreases results.len() - n,
{
    let short = one_per_document(results.take(n));
    if n < results.len() {
        lemma_one_per_document(results, n + 1);
        let longer = results.take(n + 1);
        assert(longer.drop_last() =~= results.take(n));
        let next = one_per_document(longer);
        assert(next.take(short.len() as int) =~= short);
        assert(one_per_document(results).take(short.len() as int) =~= one_per_document(
            results,
        ).take(next.len() as int).take(short.len() as int));
    } else {
        assert(results.take(n) =~= results);
        assert(short.take(short.len() as int) =~= short);
    }
}

/// The contents of a list of scores.
pub open spec fn score_views(v: Seq<(String, u32)>) -> Seq<(Seq<char>, int)> {
    Seq::new(v.len(), |i: int| (v[i].0@, v[i].1 as int))
}

/// The documents of a list of scores.
pub open spec fn scored_docs(scores: Seq<(Seq<char>, int)>) -> Seq<Seq<char>> {
    Seq::new(scores.len(), |i: int| scores[i].0)
}

/// The highest score of a document.
pub open spec fn best_score(scores: Seq<(Seq<char>, int)>, doc_id: Seq<char>) -> int
    decreases scores.len(),
{
    if scores.len() == 0 {
        0
    } else {
        let before = best_score(scores.drop_last(), doc_id);
        if scores.last().0 == doc_id && scores.last().1 > before {
            scores.last().1
        } else {
            before
        }
    }
}

/// The highest score of each of the documents.
pub open spec fn best_scores(scores: Seq<(Seq<char>, int)>, docs: Seq<Seq<char>>) -> Seq<int> {
    Seq::new(docs.len(), |i: int| best_score(scores, docs[i]))
}

/// The scored documents, the one with the highest score first.
pub open spec fn ranked_docs(scores: Seq<(Seq<char>, int)>) -> Seq<Seq<char>> {
    let docs = table::distinct(scored_docs(scores));
    order::sorted_desc(docs, best_scores(scores, docs))
}

/// The search results of the first `n` documents: those that are stored, in the
/// collection if one is given.
pub open spec fn documents_upto(
    db: DbView,
    ids: Seq<Seq<char>>,
    collection: Option<Seq<char>>,
    n: int,
) -> Seq<SearchResultView>
    decreases n,
{
    if n <= 0 {
        Seq::empty()
    } else {
        let before = documents_upto(db, ids, collection, n - 1);
        match table::first_where(db.documents, doc_has_id(ids[n - 1])) {
            Some(i) => if doc_in(collection)(db.documents[i]) {
                before.push(
                    SearchResultView {
                        doc_id: db.documents[i].id,
                        title: db.documents[i].title,
                        snippet: None,
                        collection: Some(db.documents[i].collection),
                    },
                )
            } else {
                before
            },
            None => before,
        }
    }
}

/// The results of a vector search whose scores are given: of the documents that
/// are stored in the collection, the best ones.
pub open spec fn vector_results(
    db: DbView,
    scores: Seq<(Seq<char>, int)>,
    limit: int,
    collection: Option<Seq<char>>,
) -> Seq<SearchResultView> {
    let ids = ranked_docs(scores);
    limited(documents_upto(db, ids, collection, ids.len() as int), limit)
}

/// Results come one by one.
proof fn lemma_documents_upto(
    db: DbView,
    ids: Seq<Seq<char>>,
    collection: Option<Seq<char>>,
    m: int,
    n: int,
)
    requires
        0 <= m <= n,
    ensures
        documents_upto(db, ids, collection, m).len() <= documents_upto(
            db,
            ids,
            collection,
            n,
        ).len(),
        documents_upto(db, ids, collection, n).take(
            documents_upto(db, ids, collection, m).len() as int,
        ) == documents_upto(db, ids, collection, m),
    decreases n,
{
    if m < n {
        lemma_documents_upto(db, ids, collection, m, n - 1);
        let short = documents_upto(db, ids, collection, m);
        let mid = documents_upto(db, ids, collection, n - 1);
        let long = documents_upto(db, ids, collection, n);
        assert(long.take(short.len() as int) =~= mid.take(short.len() as int));
    } else {
        let all = documents_upto(db, ids, collection, n);
        assert(all.take(all.len() as int) =~= all);
    }
}

impl Db {
    // -----------------------------------------------------------------------
    // Lifecycle
    // -----------------------------------------------------------------------

    /// A new store.
    pub fn init() -> (r: Self)
        ensures
            r@ == empty_db(),
    {
        let r = Db {
            documents: Vec::new(),
            chunks: Vec::new(),
            nodes: Vec::new(),
            edges: Vec::new(),
            embeddings: Vec::new(),
        };
        assert(r@.documents =~= empty_db().documents);
        assert(r@.chunks =~= empty_db().chunks);
        assert(r@.nodes =~= empty_db().nodes);
        assert(r@.edges =~= empty_db().edges);
        assert(r@.embeddings =~= empty_db().embeddings);
        r
    }

    /// Opens a store with what was found at `path`. Fails with `NotInitialized`
    /// where nothing was found.
    pub fn open(found: Option<Db>, path: &str) -> (r: MksResult<Self>)
        ensures
            match found {
                Some(db) => r == Ok::<Db, MksError>(db),
                None => r matches Err(MksError::NotInitialized(p)) && p@ == path@,
            },
    {
        match found {
            Some(db) => Ok(db),
            None => Err(MksError::NotInitialized(path.to_owned())),
        }
    }

    // -----------------------------------------------------------------------
    // Documents
    // -----------------------------------------------------------------------

    /// The identifier of the first document with the content hash.
    pub fn find_by_hash(&self, hash: &str) -> (r: Option<String>)
        ensures
            document::opt_view(r) == id_at(
                self@.documents,
                table::first_where(self@.documents, doc_has_hash(hash@)),
            ),
            writes::is_first_with_hash(self@.documents, hash@, document::opt_view(r)),
    {
        proof {
            writes::documents_are_found_by_hash(self@.documents, hash@);
        }
        let test = |d: &Document| -> (b: bool)
            ensures
                b == (d@.content_hash == hash@),
            { text::same(d.content_hash.as_str(), hash) };
        let at = table::find_row(
            &self.documents,
            test,
            Ghost(doc_has_hash(hash@)),
        );
        match at {
            Some(i) => Some(self.documents[i].id.clone()),
            None => None,
        }
    }

    /// The index of the first document with the path.
    pub(crate) fn document_at_path(&self, path: &str) -> (r: Option<usize>)
        ensures
            match (r, table::first_where(self@.documents, doc_has_path(path@))) {
                (Some(a), Some(b)) => a == b && a < self.documents@.len(),
                (None, None) => true,
                _ => false,
            },
    {
        let test = |d: &Document| -> (b: bool)
            ensures
                b == (d@.path == path@),
            { text::same(d.path.as_str(), path) };
        table::find_row(&self.documents, test, Ghost(doc_has_path(path@)))
    }

    /// The identifier of the first document with the path.
    pub fn find_by_path(&self, path: &str) -> (r: Option<String>)
        ensures
            document::opt_view(r) == id_at(
                self@.documents,
                table::first_where(self@.documents, doc_has_path(path@)),
            ),
            writes::is_first_with_path(self@.documents, path@, document::opt_view(r)),
    {
        proof {
            writes::documents_are_found_by_path(self@.documents, path@);
        }
        match self.document_at_path(path) {
            Some(i) => Some(self.documents[i].id.clone()),
            None => None,
        }
    }

    /// Inserts or replaces a document (upsert by ID).
    pub fn upsert_document(&mut self, doc: &Document)
        ensures
            final(self)@ == with_document(old(self)@, doc@),
            writes::is_store_with(old(self)@, doc@, final(self)@),
    {
        proof {
            writes::storing_replaces_the_document(self@, doc@);
        }
        let id = doc.id.as_str();
        let test = |d: &Document| -> (b: bool)
            ensures
                b == (d@.id != id@),
            { !text::same(d.id.as_str(), id) };
        table::keep_rows(
            &mut self.documents,
            test,
            Ghost(doc_lacks_id(doc@.id)),
        );
        let ghost kept = self.documents@;
        self.documents.push(doc.clone());
        assert(table::rows(self.documents@) =~= table::rows(kept).push(doc@));
    }

    /// The index of the first document with the identifier.
    fn document_at(&self, id: &str) -> (r: Option<usize>)
        ensures
            match (r, table::first_where(self@.documents, doc_has_id(id@))) {
                (Some(a), Some(b)) => a == b && a < self.documents@.len(),
                (None, None) => true,
                _ => false,
            },
    {
        let test = |d: &Document| -> (b: bool)
            ensures
                b == (d@.id == id@),
            { text::same(d.id.as_str(), id) };
        table::find_row(
            &self.documents,
            test,
            Ghost(doc_has_id(id@)),
        )
    }

    /// Retrieves a document by ID.
    pub fn get_document(&self, id: &str) -> (r: MksResult<Document>)
        ensures
            match table::first_where(self@.documents, doc_has_id(id@)) {
                Some(i) => r matches Ok(doc) && doc@ == self@.documents[i],
                None => r matches Err(MksError::NotFound(e)) && e@ == id@,
            },
    {
        match self.document_at(id) {
            Some(i) => Ok(self.documents[i].clone()),
            None => Err(MksError::NotFound(id.to_owned())),
        }
    }

    /// Lists documents, optionally filtered by collection, newest first.
    pub fn list_documents(&self, collection: Option<&str>, limit: usize) -> (r: Vec<Document>)
        ensures
            table::rows(r@) == limited(newest_first(self@, opt_str(collection)), limit as int),
            reads::is_listing(self@, opt_str(collection), limit as int, table::rows(r@)),
    {
        proof {
            reads::listings_hold_the_newest(self@, opt_str(collection), limit as int);
        }
        let ghost chosen = doc_in(opt_str(collection));
        let test = |d: &Document| -> (b: bool)
            ensures
                b == chosen(d@),
            {
                match collection {
                    Some(c) => text::same(d.collection.as_str(), c),
                    None => true,
                }
            };
        let selected = table::select_rows(
            &self.documents,
            test,
            Ghost(chosen),
        );
        let ghost docs = self@.documents.filter(chosen);
        let n: usize = selected.len();
        let mut keys: Vec<i128> = Vec::new();
        let mut i: usize = 0;
        while i < n
            invariant
                i <= n == selected@.len() == docs.len(),
                forall|k: int|
                    0 <= k < selected@.len() ==> (#[trigger] selected@[k]) < self.documents@.len(),
                docs == Seq::new(
                    selected@.len(),
                    |k: int| self@.documents[selected@[k] as int],
                ),
                keys@.len() == i,
                forall|k: int| 0 <= k < i ==> (#[trigger] keys@[k]) == instants(docs)[k],
            decreases n - i,
        {
            keys.push(self.documents[selected[i]].added_at.instant());
            i += 1;
        }
        assert(order::key_ints(keys@) =~= instants(docs));
        let sorted = order::order_desc(&keys);
        let ghost full = order::sorted_desc(docs, instants(docs));
        let count: usize = if n <= limit {
            n
        } else {
            limit
        };
        let mut out: Vec<Document> = Vec::new();
        let mut k: usize = 0;
        while k < count
            invariant
                k <= count <= n == selected@.len() == docs.len() == sorted@.len(),
                forall|j: int|
                    0 <= j < selected@.len() ==> (#[trigger] selected@[j]) < self.documents@.len(),
                docs == Seq::new(
                    selected@.len(),
                    |j: int| self@.documents[selected@[j] as int],
                ),
                order::covers(order::ints(sorted@), 0, n as int),
                full == order::arranged(docs, order::ints(sorted@)),
                table::rows(out@) == full.take(k as int),
            decreases count - k,
        {
            let ghost had = out@;
            assert(0 <= order::ints(sorted@)[k as int] < n);
            let at: usize = sorted[k];
            out.push(self.documents[selected[at]].clone());
            assert(table::rows(out@) =~= table::rows(had).push(full[k as int]));
            k += 1;
            assert(full.take(k as int) =~= full.take(k - 1).push(full[k - 1]));
        }
        assert(full.take(full.len() as int) =~= full);
        out
    }

    // -----------------------------------------------------------------------
    // Index rows
    // -----------------------------------------------------------------------

    /// Inserts chunks into the full-text index.
    pub fn insert_chunks(&mut self, chunks: &Vec<Chunk>)
        ensures
            final(self)@ == with_chunks(old(self)@, chunk::chunk_views(chunks@)),
    {
        let ghost before = self@;
        let ghost all = chunk::chunk_views(chunks@);
        let ghost fresh = Seq::new(all.len(), |i: int| chunk_row(all[i]));
        let n: usize = chunks.len();
        let mut i: usize = 0;
        assert(fresh.take(0) =~= Seq::empty());
        while i < n
            invariant
                i <= n == chunks@.len(),
                all == chunk::chunk_views(chunks@),
                fresh == Seq::new(all.len(), |i: int| chunk_row(all[i])),
                self@ == (DbView { chunks: before.chunks + fresh.take(i as int), ..before }),
            decreases n - i,
        {
            let ghost had = self.chunks@;
            self.chunks.push(
                ChunkRow {
                    doc_id: chunks[i].doc_id.clone(),
                    title: chunks[i].title.clone(),
                    content: chunks[i].content.clone(),
                },
            );
            assert(table::rows(self.chunks@) =~= table::rows(had).push(fresh[i as int]));
            i += 1;
            assert(fresh.take(i as int) =~= fresh.take(i - 1).push(fresh[i - 1]));
            assert(self@.chunks =~= before.chunks + fresh.take(i as int));
        }
        assert(fresh.take(n as int) =~= fresh);
    }

    /// Removes all index rows of a document.
    pub fn delete_chunks_for_doc(&mut self, doc_id: &str)
        ensures
            final(self)@ == without_chunks(old(self)@, doc_id@),
    {
        let test = |c: &ChunkRow| -> (b: bool)
            ensures
                b == (c@.doc_id != doc_id@),
            { !text::same(c.doc_id.as_str(), doc_id) };
        table::keep_rows(
            &mut self.chunks,
            test,
            Ghost(chunk_of_other(doc_id@)),
        );
    }

    // -----------------------------------------------------------------------
    // Nodes and edges
    // -----------------------------------------------------------------------

    /// The index of the first node with the identifier.
    pub(crate) fn node_at(&self, id: &str) -> (r: Option<usize>)
        ensures
            match (r, table::first_where(self@.nodes, node_has_id(id@))) {
                (Some(a), Some(b)) => a == b && a < self.nodes@.len(),
                (None, None) => true,
                _ => false,
            },
    {
        let test = |n: &Node| -> (b: bool)
            ensures
                b == (n@.id == id@),
            { text::same(n.id.as_str(), id) };
        table::find_row(
            &self.nodes,
            test,
            Ghost(node_has_id(id@)),
        )
    }

    /// Inserts or increments frequency on a node.
    pub fn upsert_node(&mut self, node: &Node)
        ensures
            final(self)@ == with_node(old(self)@, node@),
            writes::is_occurrence(old(self)@.nodes, node@, final(self)@.nodes),
    {
        proof {
            writes::occurrences_are_counted(self@.nodes, node@);
        }
        let ghost had = self.nodes@;
        match self.node_at(node.id.as_str()) {
            Some(i) => {
                let mut known = self.nodes[i].clone();
                if known.frequency < u32::MAX {
                    known.frequency = known.frequency + 1;
                }
                self.nodes.set(i, known);
                assert(table::rows(self.nodes@) =~= table::rows(had).update(
                    i as int,
                    recurred(table::rows(had)[i as int]),
                ));
            },
            None => {
                let mut fresh = node.clone();
                fresh.frequency = 1;
                self.nodes.push(fresh);
                assert(table::rows(self.nodes@) =~= table::rows(had).push(
                    (NodeView { frequency: 1, ..node@ }),
                ));
            },
        }
    }

    /// Retrieves a node by ID.
    pub fn get_node(&self, id: &str) -> (r: MksResult<Node>)
        ensures
            match table::first_where(self@.nodes, node_has_id(id@)) {
                Some(i) => r matches Ok(node) && node@ == self@.nodes[i],
                None => r matches Err(MksError::NodeNotFound(e)) && e@ == id@,
            },
    {
        match self.node_at(id) {
            Some(i) => Ok(self.nodes[i].clone()),
            None => Err(MksError::NodeNotFound(id.to_owned())),
        }
    }

    /// Returns all nodes.
    pub fn all_nodes(&self) -> (r: Vec<Node>)
        ensures
            table::rows(r@) == self@.nodes,
    {
        let r = self.nodes.clone();
        assert(table::rows(r@) =~= self@.nodes);
        r
    }

    /// Inserts an edge.
    pub fn insert_edge(&mut self, edge: &Edge)
        ensures
            final(self)@ == with_edge(old(self)@, edge@),
    {
        let ghost had = self.edges@;
        self.edges.push(edge.clone());
        assert(table::rows(self.edges@) =~= table::rows(had).push(edge@));
    }

    /// Adds the nodes and edges of a graph.
    pub fn insert_graph(&mut self, nodes: &Vec<Node>, edges: &Vec<Edge>)
        ensures
            final(self)@ == with_graph(
                old(self)@,
                graph::node_views(nodes@),
                graph::edge_views(edges@),
            ),
    {
        let ghost before = self@;
        let ghost ns = graph::node_views(nodes@);
        let ghost es = graph::edge_views(edges@);
        let n: usize = nodes.len();
        let mut i: usize = 0;
        while i < n
            invariant
                i <= n == nodes@.len(),
                ns == graph::node_views(nodes@),
                self@ == (DbView { nodes: nodes_with_all(before.nodes, ns, i as int), ..before }),
            decreases n - i,
        {
            self.upsert_node(&nodes[i]);
            i += 1;
        }
        let ghost midway = self@;
        let m: usize = edges.len();
        let mut j: usize = 0;
        assert(es.take(0) =~= Seq::empty());
        assert(midway.edges + es.take(0) =~= midway.edges);
        while j < m
            invariant
                j <= m == edges@.len(),
                es == graph::edge_views(edges@),
                self@ == (DbView { edges: midway.edges + es.take(j as int), ..midway }),
            decreases m - j,
        {
            self.insert_edge(&edges[j]);
            j += 1;
            assert(es.take(j as int) =~= es.take(j - 1).push(es[j - 1]));
            assert(self@.edges =~= midway.edges + es.take(j as int));
        }
        assert(es.take(m as int) =~= es);
    }

    /// Deletes all nodes and edges associated with a document: its edges, its
    /// own node, and the nodes that only its edges linked.
    pub fn delete_graph_for_doc(&mut self, doc_id: &str)
        ensures
            final(self)@ == without_graph(old(self)@, doc_id@),
            writes::is_store_without_graph(old(self)@, doc_id@, final(self)@),
    {
        proof {
            writes::deleted_graphs_take_their_own(self@, doc_id@);
        }
        let ghost before = self@;
        let own = text::concat("doc_", doc_id);
        let test = |e: &Edge| -> (b: bool)
            ensures
                b == (e@.doc_id == doc_id@),
            { text::same(e.doc_id.as_str(), doc_id) };
        let selected = table::select_rows(&self.edges, test, Ghost(edge_of(doc_id@)));
        let gone = self.edges_at(&selected);
        assert(table::rows(gone@) == before.edges.filter(edge_of(doc_id@)));
        let test = |e: &Edge| -> (b: bool)
            ensures
                b == (e@.doc_id != doc_id@),
            { !text::same(e.doc_id.as_str(), doc_id) };
        table::keep_rows(
            &mut self.edges,
            test,
            Ghost(edge_of_other(doc_id@)),
        );
        let left = &self.edges;
        assert(table::rows(left@) == before.edges.filter(edge_of_other(doc_id@)));
        let ghost stays = node_outlasts(before.edges, doc_id@);
        let test = |n: &Node| -> (b: bool)
            ensures
                b == stays(n@),
            {
                !text::same(n.id.as_str(), own.as_str()) && !(n.kind != NodeKind::Document
                    && n.doc_id.is_none() && is_linked(&gone, n.id.as_str()) && !is_linked(
                    left,
                    n.id.as_str(),
                ))
            };
        table::keep_rows(
            &mut self.nodes,
            test,
            Ghost(stays),
        );
    }

    /// Copies of the edges at the given places.
    fn edges_at(&self, places: &Vec<usize>) -> (r: Vec<Edge>)
        requires
            forall|k: int| 0 <= k < places@.len() ==> (#[trigger] places@[k]) < self.edges@.len(),
        ensures
            table::rows(r@) == Seq::new(
                places@.len(),
                |k: int| table::rows(self.edges@)[places@[k] as int],
            ),
    {
        let ghost all = table::rows(self.edges@);
        let mut out: Vec<Edge> = Vec::new();
        let n: usize = places.len();
        let mut i: usize = 0;
        while i < n
            invariant
                i <= n == places@.len(),
                all == table::rows(self.edges@),
                forall|k: int|
                    0 <= k < places@.len() ==> (#[trigger] places@[k]) < self.edges@.len(),
                out@.len() == i,
                forall|k: int| 0 <= k < i ==> (#[trigger] out@[k])@ == all[places@[k] as int],
            decreases n - i,
        {
            assert(places@[i as int] < self.edges@.len());
            out.push(self.edges[places[i]].clone());
            i += 1;
        }
        assert(table::rows(out@) =~= Seq::new(n as nat, |k: int| all[places@[k] as int]));
        out
    }

    /// Deletes a document and all its associated chunks and graph data.
    pub fn delete_document(&mut self, id: &str) -> (r: MksResult<()>)
        ensures
            match table::first_where(old(self)@.documents, doc_has_id(id@)) {
                Some(i) => r is Ok && final(self)@ == without_document(old(self)@, id@),
                None => (r matches Err(MksError::NotFound(e)) && e@ == id@) && final(self)@ == old(
                    self,
                )@,
            },
    {
        if self.document_at(id).is_none() {
            return Err(MksError::NotFound(id.to_owned()));
        }
        self.delete_chunks_for_doc(id);
        self.delete_graph_for_doc(id);
        let test = |d: &Document| -> (b: bool)
            ensures
                b == (d@.id != id@),
            { !text::same(d.id.as_str(), id) };
        table::keep_rows(
            &mut self.documents,
            test,
            Ghost(doc_lacks_id(id@)),
        );
        Ok(())
    }

    /// Finds a node ID by label: exact, then prefix, then contains
    /// (case-insensitive).
    pub fn find_node_by_label(&self, label: &str) -> (r: MksResult<String>)
        ensures
            match labelled(self@.nodes, label@) {
                Some(i) => r matches Ok(id) && id@ == self@.nodes[i].id,
                None => r matches Err(MksError::NodeNotFound(e)) && e@ == label@,
            },
            reads::is_best_match(
                self@.nodes,
                label@,
                match r {
                    Ok(id) => Some(id@),
                    Err(e) => None,
                },
            ),
    {
        proof {
            reads::labels_stand_for_the_best_match(self@.nodes, label@);
        }
        let lower = text::lowercase(label);
        let wanted = text::chars_of(lower.as_str());
        let is = |n: &Node| -> (b: bool)
            ensures
                b == (text::lowercase_of(n@.label) == wanted@),
            {
                let own = text::lowercase(n.label.as_str());
                text::equals(wanted.as_slice(), own.as_str())
            };
        if let Some(i) = table::find_row(&self.nodes, is, Ghost(label_is(label@))) {
            return Ok(self.nodes[i].id.clone());
        }
        let begins = |n: &Node| -> (b: bool)
            ensures
                b == text::begins_with(text::lowercase_of(n@.label), wanted@),
            {
                let own = text::lowercase(n.label.as_str());
                let chars = text::chars_of(own.as_str());
                text::stands_at(chars.as_slice(), wanted.as_slice(), 0)
            };
        if let Some(i) = table::find_row(&self.nodes, begins, Ghost(label_begins(label@))) {
            return Ok(self.nodes[i].id.clone());
        }
        let holds = |n: &Node| -> (b: bool)
            ensures
                b == (text::find_in(text::lowercase_of(n@.label), wanted@) is Some),
            {
                let own = text::lowercase(n.label.as_str());
                let chars = text::chars_of(own.as_str());
                text::find(chars.as_slice(), wanted.as_slice()).is_some()
            };
        match table::find_row(&self.nodes, holds, Ghost(label_holds(label@))) {
            Some(i) => Ok(self.nodes[i].id.clone()),
            None => Err(MksError::NodeNotFound(label.to_owned())),
        }
    }

    /// Returns all node IDs whose label contains `text` (case-insensitive).
    pub fn search_nodes_by_label(&self, label: &str) -> (r: Vec<String>)
        ensures
            table::rows(r@) == node_ids(self@.nodes.filter(label_holds(label@))),
            reads::are_matches(self@.nodes, label@, table::rows(r@)),
    {
        proof {
            reads::label_searches_find_what_contains_the_text(self@.nodes, label@);
        }
        let lower = text::lowercase(label);
        let wanted = text::chars_of(lower.as_str());
        let holds = |n: &Node| -> (b: bool)
            ensures
                b == (text::find_in(text::lowercase_of(n@.label), wanted@) is Some),
            {
                let own = text::lowercase(n.label.as_str());
                let chars = text::chars_of(own.as_str());
                text::find(chars.as_slice(), wanted.as_slice()).is_some()
            };
        let selected = table::select_rows(&self.nodes, holds, Ghost(label_holds(label@)));
        let ghost chosen = self@.nodes.filter(label_holds(label@));
        let n: usize = selected.len();
        let mut out: Vec<String> = Vec::new();
        let mut i: usize = 0;
        while i < n
            invariant
                i <= n == selected@.len() == chosen.len(),
                forall|k: int|
                    0 <= k < selected@.len() ==> (#[trigger] selected@[k]) < self.nodes@.len(),
                chosen == Seq::new(selected@.len(), |k: int| self@.nodes[selected@[k] as int]),
                table::rows(out@) == node_ids(chosen).take(i as int),
            decreases n - i,
        {
            let ghost had = out@;
            out.push(self.nodes[selected[i]].id.clone());
            assert(table::rows(out@) =~= table::rows(had).push(node_ids(chosen)[i as int]));
            i += 1;
            assert(node_ids(chosen).take(i as int) =~= node_ids(chosen).take(i - 1).push(
                node_ids(chosen)[i - 1],
            ));
        }
        assert(node_ids(chosen).take(n as int) =~= node_ids(chosen));
        out
    }

    /// Returns all edges where `node_id` is the source: (target, relation, weight)
    pub fn edges_from(&self, node_id: &str) -> (r: Vec<(String, String, u32)>)
        ensures
            link_views(r@) == links_from(self@.edges, node_id@),
            writes::are_links_from(self@.edges, node_id@, link_views(r@)),
    {
        proof {
            writes::links_are_the_edges_of_a_node(self@.edges, node_id@);
        }
        let test = |e: &Edge| -> (b: bool)
            ensures
                b == (e@.source == node_id@),
            { text::same(e.source.as_str(), node_id) };
        let selected = table::select_rows(&self.edges, test, Ghost(edge_from(node_id@)));
        let ghost chosen = self@.edges.filter(edge_from(node_id@));
        let ghost links = links_from(self@.edges, node_id@);
        let n: usize = selected.len();
        let mut out: Vec<(String, String, u32)> = Vec::new();
        let mut i: usize = 0;
        while i < n
            invariant
                i <= n == selected@.len() == chosen.len(),
                forall|k: int|
                    0 <= k < selected@.len() ==> (#[trigger] selected@[k]) < self.edges@.len(),
                chosen == Seq::new(selected@.len(), |k: int| self@.edges[selected@[k] as int]),
                links == Seq::new(
                    chosen.len(),
                    |k: int| (chosen[k].target, chosen[k].relation, chosen[k].weight),
                ),
                link_views(out@) == links.take(i as int),
            decreases n - i,
        {
            let ghost had = out@;
            let at: usize = selected[i];
            out.push(
                (
                    self.edges[at].target.clone(),
                    self.edges[at].relation.clone(),
                    self.edges[at].weight,
                ),
            );
            assert(link_views(out@) =~= link_views(had).push(links[i as int]));
            i += 1;
            assert(links.take(i as int) =~= links.take(i - 1).push(links[i - 1]));
        }
        assert(links.take(n as int) =~= links);
        out
    }

    /// Returns all edges where `node_id` is the target: (source, relation, weight)
    pub fn edges_to(&self, node_id: &str) -> (r: Vec<(String, String, u32)>)
        ensures
            link_views(r@) == links_to(self@.edges, node_id@),
            writes::are_links_to(self@.edges, node_id@, link_views(r@)),
    {
        proof {
            writes::links_are_the_edges_of_a_node(self@.edges, node_id@);
        }
        let test = |e: &Edge| -> (b: bool)
            ensures
                b == (e@.target == node_id@),
            { text::same(e.target.as_str(), node_id) };
        let selected = table::select_rows(&self.edges, test, Ghost(edge_to(node_id@)));
        let ghost chosen = self@.edges.filter(edge_to(node_id@));
        let ghost links = links_to(self@.edges, node_id@);
        let n: usize = selected.len();
        let mut out: Vec<(String, String, u32)> = Vec::new();
        let mut i: usize = 0;
        while i < n
            invariant
                i <= n == selected@.len() == chosen.len(),
                forall|k: int|
                    0 <= k < selected@.len() ==> (#[trigger] selected@[k]) < self.edges@.len(),
                chosen == Seq::new(selected@.len(), |k: int| self@.edges[selected@[k] as int]),
                links == Seq::new(
                    chosen.len(),
                    |k: int| (chosen[k].source, chosen[k].relation, chosen[k].weight),
                ),
                link_views(out@) == links.take(i as int),
            decreases n - i,
        {
            let ghost had = out@;
            let at: usize = selected[i];
            out.push(
                (
                    self.edges[at].source.clone(),
                    self.edges[at].relation.clone(),
                    self.edges[at].weight,
                ),
            );
            assert(link_views(out@) =~= link_views(had).push(links[i as int]));
            i += 1;
            assert(links.take(i as int) =~= links.take(i - 1).push(links[i - 1]));
        }
        assert(links.take(n as int) =~= links);
        out
    }

    /// Returns total edge count for a node (in + out).
    pub fn node_degree(&self, node_id: &str) -> (r: usize)
        ensures
            r == degree_of(self@.edges, node_id@),
            r == traverse::saturated(
                traverse::ends_at(self@.edges, node_id@, self@.edges.len() as int),
            ),
    {
        proof {
            traverse::degrees_count_the_links(self@.edges, node_id@);
        }
        let leaves = |e: &Edge| -> (b: bool)
            ensures
                b == (e@.source == node_id@),
            { text::same(e.source.as_str(), node_id) };
        let enters = |e: &Edge| -> (b: bool)
            ensures
                b == (e@.target == node_id@),
            { text::same(e.target.as_str(), node_id) };
        let out: usize = table::count_rows(&self.edges, leaves, Ghost(edge_from(node_id@)));
        let inc: usize = table::count_rows(&self.edges, enters, Ghost(edge_to(node_id@)));
        out.saturating_add(inc)
    }

    /// Whether an edge leaves the node.
    fn has_outgoing(&self, node_id: &str) -> (r: bool)
        ensures
            r == table::any_where(self@.edges, edge_from(node_id@)),
    {
        let leaves = |e: &Edge| -> (b: bool)
            ensures
                b == (e@.source == node_id@),
            { text::same(e.source.as_str(), node_id) };
        proof {
            table::lemma_any_first(self@.edges, edge_from(node_id@));
        }
        table::find_row(&self.edges, leaves, Ghost(edge_from(node_id@))).is_some()
    }

    /// How many nodes are of the kind.
    fn count_kind(&self, kind: NodeKind) -> (r: usize)
        ensures
            r == table::count_where(self@.nodes, node_of_kind(kind)),
    {
        let test = |n: &Node| -> (b: bool)
            ensures
                b == (n@.kind == kind),
            { n.kind == kind };
        table::count_rows(&self.nodes, test, Ghost(node_of_kind(kind)))
    }

    /// How many edges are of the confidence.
    fn count_confidence(&self, confidence: Confidence) -> (r: usize)
        ensures
            r == table::count_where(self@.edges, edge_of_confidence(confidence)),
    {
        let test = |e: &Edge| -> (b: bool)
            ensures
                b == (e@.confidence == confidence),
            { e.confidence == confidence };
        table::count_rows(&self.edges, test, Ghost(edge_of_confidence(confidence)))
    }

    /// Counts of the knowledge graph.
    pub fn graph_stats(&self) -> (r: GraphStats)
        ensures
            is_graph_stats(self@, r),
            reads::counts_the_graph(self@, r),
    {
        let ghost unlinked = unlinked_doc(self@.edges);
        let isolated = |n: &Node| -> (b: bool)
            ensures
                b == unlinked(n@),
            { n.kind == NodeKind::Document && !self.has_outgoing(n.id.as_str()) };
        let counts = GraphStats {
            total_nodes: self.nodes.len(),
            doc_nodes: self.count_kind(NodeKind::Document),
            wikilink_nodes: self.count_kind(NodeKind::WikiLink),
            tag_nodes: self.count_kind(NodeKind::Tag),
            total_edges: self.edges.len(),
            extracted_edges: self.count_confidence(Confidence::Extracted),
            inferred_edges: self.count_confidence(Confidence::Inferred),
            ambiguous_edges: self.count_confidence(Confidence::Ambiguous),
            isolated_docs: table::count_rows(&self.nodes, isolated, Ghost(unlinked)),
        };
        proof {
            reads::statistics_count_the_graph(self@, counts);
        }
        counts
    }

    // -----------------------------------------------------------------------
    // Embeddings
    // -----------------------------------------------------------------------

    /// Stores a vector embedding for a chunk, as JSON text. Replaces any
    /// existing entry.
    pub fn upsert_embedding(&mut self, doc_id: &str, chunk_id: &str, vector: &str)
        ensures
            final(self)@ == with_embedding(
                old(self)@,
                (EmbeddingRowView { doc_id: doc_id@, chunk_id: chunk_id@, vector: vector@ }),
            ),
    {
        let ghost beside = embedding_beside(doc_id@, chunk_id@);
        let test = |e: &EmbeddingRow| -> (b: bool)
            ensures
                b == beside(e@),
            { !(text::same(e.doc_id.as_str(), doc_id) && text::same(e.chunk_id.as_str(), chunk_id))
            };
        table::keep_rows(&mut self.embeddings, test, Ghost(beside));
        let ghost kept = self.embeddings@;
        self.embeddings.push(
            EmbeddingRow {
                doc_id: doc_id.to_owned(),
                chunk_id: chunk_id.to_owned(),
                vector: vector.to_owned(),
            },
        );
        assert(table::rows(self.embeddings@) =~= table::rows(kept).push(
            (EmbeddingRowView { doc_id: doc_id@, chunk_id: chunk_id@, vector: vector@ }),
        ));
    }

    /// Whether a document has an embedding.
    fn has_embedding(&self, doc_id: &str) -> (r: bool)
        ensures
            r == table::any_where(self@.embeddings, embedding_of(doc_id@)),
    {
        let test = |e: &EmbeddingRow| -> (b: bool)
            ensures
                b == (e@.doc_id == doc_id@),
            { text::same(e.doc_id.as_str(), doc_id) };
        proof {
            table::lemma_any_first(self@.embeddings, embedding_of(doc_id@));
        }
        table::find_row(&self.embeddings, test, Ghost(embedding_of(doc_id@))).is_some()
    }

    /// Returns doc IDs that have no embeddings yet (for incremental embed runs).
    pub fn find_unembedded_docs(&self) -> (r: Vec<String>)
        ensures
            table::rows(r@) == doc_ids(self@.documents.filter(doc_unembedded(self@.embeddings))),
            reads::are_unembedded(self@, table::rows(r@)),
    {
        proof {
            reads::unembedded_documents_have_no_embedding(self@);
        }
        let ghost lacks = doc_unembedded(self@.embeddings);
        let test = |d: &Document| -> (b: bool)
            ensures
                b == lacks(d@),
            { !self.has_embedding(d.id.as_str()) };
        let selected = table::select_rows(&self.documents, test, Ghost(lacks));
        let ghost chosen = self@.documents.filter(lacks);
        let n: usize = selected.len();
        let mut out: Vec<String> = Vec::new();
        let mut i: usize = 0;
        while i < n
            invariant
                i <= n == selected@.len() == chosen.len(),
                forall|k: int|
                    0 <= k < selected@.len() ==> (#[trigger] selected@[k]) < self.documents@.len(),
                chosen == Seq::new(selected@.len(), |k: int| self@.documents[selected@[k] as int]),
                table::rows(out@) == doc_ids(chosen).take(i as int),
            decreases n - i,
        {
            let ghost had = out@;
            out.push(self.documents[selected[i]].id.clone());
            assert(table::rows(out@) =~= table::rows(had).push(doc_ids(chosen)[i as int]));
            i += 1;
            assert(doc_ids(chosen).take(i as int) =~= doc_ids(chosen).take(i - 1).push(
                doc_ids(chosen)[i - 1],
            ));
        }
        assert(doc_ids(chosen).take(n as int) =~= doc_ids(chosen));
        out
    }

    /// Returns all stored embeddings, for similarity scoring.
    pub fn all_embeddings(&self) -> (r: Vec<EmbeddingRow>)
        ensures
            table::rows(r@) == self@.embeddings,
    {
        let r = self.embeddings.clone();
        assert(table::rows(r@) =~= self@.embeddings);
        r
    }

    /// Deletes all embeddings for a document.
    pub fn delete_embeddings_for_doc(&mut self, doc_id: &str)
        ensures
            final(self)@ == without_embeddings(old(self)@, doc_id@),
    {
        let test = |e: &EmbeddingRow| -> (b: bool)
            ensures
                b == (e@.doc_id != doc_id@),
            { !text::same(e.doc_id.as_str(), doc_id) };
        table::keep_rows(&mut self.embeddings, test, Ghost(embedding_of_other(doc_id@)));
    }

    // -----------------------------------------------------------------------
    // Store statistics
    // -----------------------------------------------------------------------

    /// The names of the collections, each once.
    fn collection_names(&self) -> (r: Vec<Vec<char>>)
        ensures
            text::views(r@) == table::distinct(collections_of(self@.documents)),
    {
        let ghost all = collections_of(self@.documents);
        let n: usize = self.documents.len();
        let mut out: Vec<Vec<char>> = Vec::new();
        let mut i: usize = 0;
        assert(all.take(0) =~= Seq::empty());
        assert(text::views(out@) =~= table::distinct(all.take(0)));
        while i < n
            invariant
                i <= n == self.documents@.len(),
                all == collections_of(self@.documents),
                text::views(out@) == table::distinct(all.take(i as int)),
            decreases n - i,
        {
            let name = text::chars_of(self.documents[i].collection.as_str());
            let ghost longer = all.take(i + 1);
            assert(longer.drop_last() =~= all.take(i as int));
            assert(longer.last() == name@);
            proof {
                table::lemma_distinct(all.take(i as int));
            }
            let m: usize = out.len();
            let mut seen: bool = false;
            let mut j: usize = 0;
            while j < m
                invariant
                    j <= m == out@.len(),
                    seen == exists|k: int| 0 <= k < j && #[trigger] text::views(out@)[k] == name@,
                decreases m - j,
            {
                assert(text::views(out@)[j as int] == out@[j as int]@);
                if text::same_chars(out[j].as_slice(), name.as_slice()) {
                    seen = true;
                }
                j += 1;
            }
            assert(seen == text::views(out@).contains(name@));
            if !seen {
                let ghost had = out@;
                let ghost this = name@;
                out.push(name);
                assert(text::views(out@) =~= text::views(had).push(this));
            }
            i += 1;
        }
        assert(all.take(n as int) =~= all);
        out
    }

    /// How many documents are in the collection.
    fn count_collection(&self, name: &[char]) -> (r: usize)
        ensures
            r == table::count_where(self@.documents, doc_in(Some(name@))),
    {
        let ghost inside = doc_in(Some(name@));
        let test = |d: &Document| -> (b: bool)
            ensures
                b == inside(d@),
            { text::equals(name, d.collection.as_str()) };
        table::count_rows(&self.documents, test, Ghost(inside))
    }

    /// Counts of the store, in all and by collection.
    pub fn stats(&self) -> (r: StoreStats)
        ensures
            r.total_docs == self@.documents.len(),
            r.total_chunks == self@.chunks.len(),
            r.total_nodes == self@.nodes.len(),
            r.total_edges == self@.edges.len(),
            count_views(r.collections@) == collection_counts(self@.documents),
            reads::are_collections(self@.documents, count_views(r.collections@)),
    {
        proof {
            reads::statistics_list_the_collections(self@.documents);
        }
        let names = self.collection_names();
        let sorted = order::order_by_text(&names);
        let ghost all = collection_counts(self@.documents);
        let ghost ns = text::views(names@);
        let n: usize = names.len();
        let mut collections: Vec<(String, usize)> = Vec::new();
        let mut i: usize = 0;
        assert(all.take(0) =~= Seq::empty());
        while i < n
            invariant
                i <= n == names@.len() == sorted@.len() == all.len(),
                ns == text::views(names@),
                ns == table::distinct(collections_of(self@.documents)),
                order::covers(order::ints(sorted@), 0, n as int),
                order::ints(sorted@) == order::the_order(n as int, order::by_text(ns)),
                all == collection_counts(self@.documents),
                count_views(collections@) == all.take(i as int),
            decreases n - i,
        {
            let ghost had = collections@;
            assert(0 <= order::ints(sorted@)[i as int] < n);
            let at: usize = sorted[i];
            let name = names[at].as_slice();
            assert(name@ == order::sorted_by_text(ns, ns)[i as int]);
            collections.push((text::string_of(name), self.count_collection(name)));
            assert(count_views(collections@) =~= count_views(had).push(all[i as int]));
            i += 1;
            assert(all.take(i as int) =~= all.take(i - 1).push(all[i - 1]));
        }
        assert(all.take(n as int) =~= all);
        StoreStats {
            total_docs: self.documents.len(),
            total_chunks: self.chunks.len(),
            total_nodes: self.nodes.len(),
            total_edges: self.edges.len(),
            collections,
        }
    }

    // -----------------------------------------------------------------------
    // Searching
    // -----------------------------------------------------------------------

    /// The document that a search result is of, if it is in the collection.
    fn document_in(&self, id: &str, collection: Option<&str>) -> (r: Option<usize>)
        ensures
            match (r, table::first_where(self@.documents, doc_has_id(id@))) {
                (Some(a), Some(b)) => a == b && a < self.documents@.len() && doc_in(
                    opt_str(collection),
                )(self@.documents[b]),
                (Some(a), None) => false,
                (None, Some(b)) => !doc_in(opt_str(collection))(self@.documents[b]),
                (None, None) => true,
            },
    {
        match self.document_at(id) {
            Some(i) => match collection {
                Some(c) => if text::same(self.documents[i].collection.as_str(), c) {
                    Some(i)
                } else {
                    None
                },
                None => Some(i),
            },
            None => None,
        }
    }

    /// Full-text search over chunks, given the matching rows best first.
    /// Of several rows of one document the best one counts. Returns the first
    /// `limit` documents.
    pub fn fts_search(
        &self,
        ranked: &Vec<ChunkMatch>,
        limit: usize,
        collection: Option<&str>,
        with_snippets: bool,
    ) -> (r: Vec<SearchResult>)
        ensures
            table::rows(r@) == fts_results(
                self@,
                table::rows(ranked@),
                limit as int,
                opt_str(collection),
                with_snippets,
            ),
            reads::are_results(
                self@,
                table::rows(ranked@),
                opt_str(collection),
                with_snippets,
                limit as int,
                table::rows(r@),
            ),
    {
        proof {
            reads::searches_find_every_matching_document(
                self@,
                table::rows(ranked@),
                opt_str(collection),
                with_snippets,
                limit as int,
            );
        }
        let ghost all = table::rows(ranked@);
        let ghost col = opt_str(collection);
        let n: usize = ranked.len();
        let mut found: Vec<SearchResult> = Vec::new();
        let mut i: usize = 0;
        assert(table::rows(found@) =~= Seq::empty());
        while i < n
            invariant
                i <= n == ranked@.len(),
                all == table::rows(ranked@),
                col == opt_str(collection),
                table::rows(found@) == results_upto(self@, all, col, with_snippets, i as int),
            decreases n - i,
        {
            let ghost had = found@;
            assert(all[i as int] == ranked@[i as int]@);
            match self.document_in(ranked[i].doc_id.as_str(), collection) {
                Some(at) => {
                    found.push(
                        SearchResult {
                            doc_id: ranked[i].doc_id.clone(),
                            title: ranked[i].title.clone(),
                            snippet: if with_snippets {
                                document::clone_opt(&ranked[i].snippet)
                            } else {
                                None
                            },
                            collection: Some(self.documents[at].collection.clone()),
                        },
                    );
                    assert(table::rows(found@) =~= table::rows(had).push(found@.last()@));
                },
                None => {},
            }
            i += 1;
        }
        let ghost hits = table::rows(found@);
        let count: usize = found.len();
        let mut out: Vec<SearchResult> = Vec::new();
        let mut j: usize = 0;
        assert(hits.take(0) =~= Seq::empty());
        assert(table::rows(out@) =~= Seq::empty());
        while j < count && out.len() < limit
            invariant
                j <= count == found@.len(),
                hits == table::rows(found@),
                out@.len() <= limit,
                table::rows(out@) == one_per_document(hits.take(j as int)),
            decreases count - j,
        {
            let ghost longer = hits.take(j + 1);
            assert(longer.drop_last() =~= hits.take(j as int));
            assert(longer.last() == found@[j as int]@);
            let mut seen: bool = false;
            let mut k: usize = 0;
            while k < j
                invariant
                    k <= j < count == found@.len(),
                    hits == table::rows(found@),
                    seen == exists|m: int|
                        0 <= m < k && (#[trigger] hits.take(j as int)[m]).doc_id
                            == found@[j as int]@.doc_id,
                decreases j - k,
            {
                assert(hits.take(j as int)[k as int] == found@[k as int]@);
                if text::same(found[k].doc_id.as_str(), found[j].doc_id.as_str()) {
                    seen = true;
                }
                k += 1;
            }
            assert(seen == has_result(longer.drop_last(), longer.last().doc_id));
            if !seen {
                let ghost had = out@;
                out.push(found[j].clone());
                assert(table::rows(out@) =~= table::rows(had).push(longer.last()));
            }
            j += 1;
        }
        proof {
            lemma_one_per_document(hits, j as int);
            let full = one_per_document(hits);
            if j == count {
                assert(hits.take(count as int) =~= hits);
                assert(limited(full, limit as int) =~= full);
            } else {
                assert(limited(full, limit as int) =~= full.take(limit as int));
            }
        }
        out
    }

    /// Vector similarity search, given the similarity of every stored embedding
    /// to the query, where a greater number is a closer match and zero none.
    /// Returns the top `limit` documents, the closest first.
    pub fn vector_search(
        &self,
        scores: &Vec<(String, u32)>,
        limit: usize,
        collection: Option<&str>,
    ) -> (r: Vec<SearchResult>)
        ensures
            table::rows(r@) == vector_results(
                self@,
                score_views(scores@),
                limit as int,
                opt_str(collection),
            ),
    {
        let ghost views = score_views(scores@);
        let ghost docs = table::distinct(scored_docs(views));
        let (ids, keys) = best_per_document(scores);
        assert(order::key_ints(keys@) =~= best_scores(views, docs));
        let sorted = order::order_desc(&keys);
        let ghost full = ranked_docs(views);
        let n: usize = ids.len();
        let ghost col = opt_str(collection);
        let mut out: Vec<SearchResult> = Vec::new();
        let mut i: usize = 0;
        assert(table::rows(out@) =~= Seq::empty());
        while i < n && out.len() < limit
            invariant
                i <= n == ids@.len() == sorted@.len() == full.len(),
                docs.len() == n,
                forall|k: int| 0 <= k < n ==> (#[trigger] ids@[k])@ == docs[k],
                order::covers(order::ints(sorted@), 0, n as int),
                full == order::arranged(docs, order::ints(sorted@)),
                col == opt_str(collection),
                out@.len() <= limit,
                table::rows(out@) == documents_upto(self@, full, col, i as int),
            decreases n - i,
        {
            let ghost had = out@;
            assert(0 <= order::ints(sorted@)[i as int] < n);
            let at: usize = sorted[i];
            assert(full[i as int] == ids@[at as int]@);
            match self.document_in(ids[at].as_str(), collection) {
                Some(d) => {
                    out.push(
                        SearchResult {
                            doc_id: self.documents[d].id.clone(),
                            title: self.documents[d].title.clone(),
                            snippet: None,
                            collection: Some(self.documents[d].collection.clone()),
                        },
                    );
                    assert(table::rows(out@) =~= table::rows(had).push(out@.last()@));
                },
                None => {},
            }
            i += 1;
        }
        proof {
            let all = documents_upto(self@, full, col, n as int);
            lemma_documents_upto(self@, full, col, i as int, n as int);
            if i == n {
                assert(limited(all, limit as int) =~= all);
            } else {
                assert(limited(all, limit as int) =~= all.take(limit as int));
            }
        }
        out
    }
}

/// Whether one of the edges leaves or enters the node.
fn is_linked(edges: &Vec<Edge>, id: &str) -> (r: bool)
    ensures
        r == table::any_where(table::rows(edges@), edge_at(id@)),
{
    let test = |e: &Edge| -> (b: bool)
        ensures
            b == (e@.source == id@ || e@.target == id@),
        { text::same(e.source.as_str(), id) || text::same(e.target.as_str(), id) };
    proof {
        table::lemma_any_first(table::rows(edges@), edge_at(id@));
    }
    table::find_row(edges, test, Ghost(edge_at(id@))).is_some()
}

/// The scored documents, each once, with their highest scores.
fn best_per_document(scores: &Vec<(String, u32)>) -> (r: (Vec<String>, Vec<i128>))
    ensures
        r.0@.len() == r.1@.len(),
        table::rows(r.0@) == table::distinct(scored_docs(score_views(scores@))),
        forall|k: int|
            0 <= k < r.1@.len() ==> (#[trigger] r.1@[k]) == best_score(
                score_views(scores@),
                r.0@[k]@,
            ),
        forall|k: int|
            0 <= k < r.0@.len() ==> (#[trigger] r.0@[k])@ == table::distinct(
                scored_docs(score_views(scores@)),
            )[k],
{
    let ghost views = score_views(scores@);
    let ghost all = scored_docs(views);
    let mut ids: Vec<String> = Vec::new();
    let mut keys: Vec<i128> = Vec::new();
    let n: usize = scores.len();
    let mut i: usize = 0;
    assert(all.take(0) =~= Seq::empty());
    assert(table::rows(ids@) =~= table::distinct(all.take(0)));
    while i < n
        invariant
            i <= n == scores@.len(),
            views == score_views(scores@),
            all == scored_docs(views),
            ids@.len() == keys@.len(),
            table::rows(ids@) == table::distinct(all.take(i as int)),
            forall|k: int|
                0 <= k < keys@.len() ==> (#[trigger] keys@[k]) == best_score(
                    views.take(i as int),
                    ids@[k]@,
                ),
        decreases n - i,
    {
        let ghost longer = all.take(i + 1);
        let ghost had = views.take(i as int);
        let ghost now = views.take(i + 1);
        assert(longer.drop_last() =~= all.take(i as int));
        assert(longer.last() == scores@[i as int].0@);
        assert(now.drop_last() =~= had);
        assert(now.last() == views[i as int]);
        proof {
            table::lemma_distinct(all.take(i as int));
        }
        let score: i128 = scores[i].1 as i128;
        let m: usize = ids.len();
        let mut at: Option<usize> = None;
        let mut j: usize = 0;
        while j < m
            invariant
                j <= m == ids@.len(),
                i < scores@.len(),
                match at {
                    Some(k) => k < j && ids@[k as int]@ == scores@[i as int].0@,
                    None => forall|k: int|
                        0 <= k < j ==> (#[trigger] ids@[k])@ != scores@[i as int].0@,
                },
            decreases m - j,
        {
            if text::same(ids[j].as_str(), scores[i].0.as_str()) {
                at = Some(j);
            }
            j += 1;
        }
        let ghost ids0 = ids@;
        let ghost keys0 = keys@;
        match at {
            Some(k) => {
                assert(table::rows(ids@)[k as int] == scores@[i as int].0@);
                assert(table::distinct(all.take(i as int)).contains(scores@[i as int].0@));
                if score > keys[k] {
                    keys.set(k, score);
                }
                assert forall|j: int| 0 <= j < keys@.len() implies (#[trigger] keys@[j])
                    == best_score(now, ids@[j]@) by {
                    assert(keys0[j] == best_score(had, ids@[j]@));
                    if j != k {
                        assert(table::rows(ids@)[j] != table::rows(ids@)[k as int]);
                    }
                }
            },
            None => {
                assert(!table::rows(ids@).contains(scores@[i as int].0@)) by {
                    assert forall|k: int| 0 <= k < ids@.len() implies #[trigger] table::rows(
                        ids@,
                    )[k] != scores@[i as int].0@ by {
                        assert(ids@[k]@ != scores@[i as int].0@);
                    }
                }
                proof {
                    assert(!table::distinct(all.take(i as int)).contains(scores@[i as int].0@));
                    assert(scored_docs(had) =~= all.take(i as int));
                    lemma_no_score(had, scores@[i as int].0@);
                }
                ids.push(scores[i].0.clone());
                keys.push(score);
                assert(table::rows(ids@) =~= table::rows(ids0).push(scores@[i as int].0@));
                assert forall|j: int| 0 <= j < keys@.len() implies (#[trigger] keys@[j])
                    == best_score(now, ids@[j]@) by {
                    if j < keys0.len() {
                        assert(keys0[j] == best_score(had, ids0[j]@));
                        assert(ids0[j]@ != scores@[i as int].0@);
                    }
                }
            },
        }
        i += 1;
    }
    assert(all.take(n as int) =~= all);
    assert(views.take(n as int) =~= views);
    assert forall|k: int| 0 <= k < ids@.len() implies (#[trigger] ids@[k])@ == table::distinct(all)[
        k
    ] by {
        assert(table::rows(ids@)[k] == ids@[k]@);
    }
    (ids, keys)
}

/// A document without a score has no best one.
proof fn lemma_no_score(scores: Seq<(Seq<char>, int)>, doc_id: Seq<char>)
    requires
        !scored_docs(scores).contains(doc_id),
    ensures
        best_score(scores, doc_id) == 0,
    decreases scores.len(),
{
    if scores.len() > 0 {
        let front = scores.drop_last();
        assert(scored_docs(scores)[scores.len() - 1] == scores.last().0);
        assert forall|k: int| 0 <= k < front.len() implies scored_docs(front)[k] != doc_id by {
            assert(scored_docs(scores)[k] == scored_docs(front)[k]);
        }
        lemma_no_score(front, doc_id);
    }
}

// ---------------------------------------------------------------------------
// Laws
// ---------------------------------------------------------------------------

/// Two nodes have different identifiers.
pub open spec fn nodes_differ() -> spec_fn(NodeView, NodeView) -> bool {
    |a: NodeView, b: NodeView| a.id != b.id
}

/// One more occurrence of a node keeps the identifiers of the nodes distinct,
/// loses none of them and adds that of the node.
pub proof fn occurrence_keeps_nodes_distinct(nodes: Seq<NodeView>, n: NodeView)
    requires
        table::pairwise(nodes, nodes_differ()),
    ensures
        table::pairwise(nodes_with(nodes, n), nodes_differ()),
        forall|id: Seq<char>| #[trigger]
            graph::has_id(nodes_with(nodes, n), id) <==> graph::has_id(nodes, id) || id == n.id,
{
    let now = nodes_with(nodes, n);
    let p = node_has_id(n.id);
    table::lemma_first_from(nodes, p, 0);
    match table::first_where(nodes, p) {
        Some(k) => {
            assert forall|i: int, j: int| 0 <= i < j < now.len() implies nodes_differ()(
                #[trigger] now[i],
                #[trigger] now[j],
            ) by {
                assert(nodes_differ()(nodes[i], nodes[j]));
            }
            assert forall|id: Seq<char>| #[trigger]
                graph::has_id(now, id) <==> graph::has_id(nodes, id) || id == n.id by {
                if graph::has_id(now, id) {
                    let i = choose|i: int| 0 <= i < now.len() && (#[trigger] now[i]).id == id;
                    assert(nodes[i].id == id);
                }
                if graph::has_id(nodes, id) {
                    let i = choose|i: int| 0 <= i < nodes.len() && (#[trigger] nodes[i]).id == id;
                    assert(now[i].id == id);
                }
                assert(now[k].id == n.id);
            }
        },
        None => {
            assert forall|i: int, j: int| 0 <= i < j < now.len() implies nodes_differ()(
                #[trigger] now[i],
                #[trigger] now[j],
            ) by {
                if j < nodes.len() {
                    assert(nodes_differ()(nodes[i], nodes[j]));
                } else {
                    assert(!p(nodes[i]));
                }
            }
            assert forall|id: Seq<char>| #[trigger]
                graph::has_id(now, id) <==> graph::has_id(nodes, id) || id == n.id by {
                if graph::has_id(now, id) {
                    let i = choose|i: int| 0 <= i < now.len() && (#[trigger] now[i]).id == id;
                    if i < nodes.len() {
                        assert(nodes[i].id == id);
                    }
                }
                if graph::has_id(nodes, id) {
                    let i = choose|i: int| 0 <= i < nodes.len() && (#[trigger] nodes[i]).id == id;
                    assert(now[i].id == id);
                }
                assert(now[nodes.len() as int].id == n.id);
            }
        },
    }
}

/// A node is known by its identifier exactly where one has it.
pub proof fn lemma_known_node(nodes: Seq<NodeView>, id: Seq<char>)
    ensures
        graph::has_id(nodes, id) == (table::first_where(nodes, node_has_id(id)) is Some),
{
    let p = node_has_id(id);
    table::lemma_first_from(nodes, p, 0);
    if let Some(k) = table::first_where(nodes, p) {
        assert(nodes[k].id == id);
    }
    if graph::has_id(nodes, id) {
        let i = choose|i: int| 0 <= i < nodes.len() && (#[trigger] nodes[i]).id == id;
        assert(p(nodes[i]));
    }
}

/// A node that occurs once more is found with a frequency one greater than
/// before, or of one where it was not known.
pub proof fn occurrence_counts(nodes: Seq<NodeView>, n: NodeView)
    ensures
        ({
            let before = table::first_where(nodes, node_has_id(n.id));
            let after = table::first_where(nodes_with(nodes, n), node_has_id(n.id));
            &&& after is Some
            &&& match before {
                Some(i) => after == Some(i) && nodes_with(nodes, n)[i] == recurred(nodes[i]),
                None => nodes_with(nodes, n)[after.unwrap()] == (NodeView { frequency: 1, ..n }),
            }
        }),
{
    let p = node_has_id(n.id);
    let now = nodes_with(nodes, n);
    table::lemma_first_from(nodes, p, 0);
    match table::first_where(nodes, p) {
        Some(i) => {
            assert forall|j: int| 0 <= j < i implies !p(#[trigger] now[j]) by {
                assert(!p(nodes[j]));
            }
            table::lemma_is_first(now, p, i);
        },
        None => {
            assert forall|j: int| 0 <= j < nodes.len() implies !p(#[trigger] now[j]) by {
                assert(!p(nodes[j]));
            }
            table::lemma_is_first(now, p, nodes.len() as int);
        },
    }
}

/// Adding the nodes of a graph keeps the identifiers of the nodes distinct, and
/// afterwards each of them is known.
pub proof fn graph_nodes_are_known(nodes: Seq<NodeView>, added: Seq<NodeView>, k: int)
    requires
        table::pairwise(nodes, nodes_differ()),
        0 <= k <= added.len(),
    ensures
        table::pairwise(nodes_with_all(nodes, added, k), nodes_differ()),
        forall|id: Seq<char>|
            graph::has_id(nodes, id) ==> #[trigger] graph::has_id(
                nodes_with_all(nodes, added, k),
                id,
            ),
        forall|j: int|
            0 <= j < k ==> graph::has_id(
                nodes_with_all(nodes, added, k),
                (#[trigger] added[j]).id,
            ),
    decreases k,
{
    if k > 0 {
        graph_nodes_are_known(nodes, added, k - 1);
        occurrence_keeps_nodes_distinct(nodes_with_all(nodes, added, k - 1), added[k - 1]);
    }
}

/// Deleting the graph of a document keeps the identifiers of the nodes distinct.
pub proof fn deleting_keeps_nodes_distinct(store: DbView, doc_id: Seq<char>)
    requires
        table::pairwise(store.nodes, nodes_differ()),
    ensures
        table::pairwise(without_graph(store, doc_id).nodes, nodes_differ()),
{
    table::lemma_pairwise_filter(
        store.nodes,
        nodes_differ(),
        node_outlasts(store.edges, doc_id),
    );
}

/// Whether an edge leaves the node of its document and ends at a node that is no
/// document, both of them stored.
pub open spec fn is_sound(nodes: Seq<NodeView>, e: EdgeView) -> bool {
    &&& e.source == graph::doc_node_id(e.doc_id)
    &&& graph::has_id(nodes, e.source)
    &&& graph::has_id(nodes, e.target)
    &&& !text::begins_with(e.target, "doc_"@)
}

/// Whether every stored edge joins stored nodes.
pub open spec fn edges_are_sound(store: DbView) -> bool {
    forall|i: int| 0 <= i < store.edges.len() ==> is_sound(store.nodes, #[trigger] store.edges[i])
}

/// The nodes of two documents differ.
pub proof fn doc_nodes_differ(a: Seq<char>, b: Seq<char>)
    requires
        a != b,
    ensures
        graph::doc_node_id(a) != graph::doc_node_id(b),
{
    let n = "doc_"@.len() as int;
    assert(graph::doc_node_id(a).skip(n) =~= a);
    assert(graph::doc_node_id(b).skip(n) =~= b);
}

/// A node that an edge of another document leaves or enters outlasts the
/// deletion of a document's graph, unless it is the document's own node.
proof fn lemma_linked_node_outlasts(edges: Seq<EdgeView>, doc_id: Seq<char>, e: EdgeView, n: NodeView)
    requires
        edges.contains(e),
        e.doc_id != doc_id,
        e.source == n.id || e.target == n.id,
        n.id != graph::doc_node_id(doc_id),
    ensures
        node_outlasts(edges, doc_id)(n),
{
    let left = edges.filter(edge_of_other(doc_id));
    table::lemma_filter_holds(edges, edge_of_other(doc_id));
    assert(left.contains(e));
    let i = choose|i: int| 0 <= i < left.len() && left[i] == e;
    assert(edge_at(n.id)(left[i]));
}

/// Deleting the graph of a document keeps every node that an edge of another
/// document leaves or enters, and removes those that only its own edges did.
pub proof fn deleting_spares_linked_nodes(store: DbView, doc_id: Seq<char>, n: NodeView)
    requires
        n.id != graph::doc_node_id(doc_id),
    ensures
        ({
            let after = without_graph(store, doc_id);
            &&& forall|e: EdgeView|
                #![trigger store.edges.contains(e)]
                store.edges.contains(e) && e.doc_id != doc_id && (e.source == n.id || e.target
                    == n.id) ==> (after.nodes.contains(n) <==> store.nodes.contains(n))
            &&& n.kind != NodeKind::Document && n.doc_id is None && is_orphaned(
                store.edges,
                doc_id,
                n.id,
            ) ==> !after.nodes.contains(n)
        }),
{
    let after = without_graph(store, doc_id);
    table::lemma_filter_holds(store.nodes, node_outlasts(store.edges, doc_id));
    assert(after.nodes.contains(n) <==> store.nodes.contains(n) && node_outlasts(
        store.edges,
        doc_id,
    )(n));
    assert forall|e: EdgeView|
        #![trigger store.edges.contains(e)]
        store.edges.contains(e) && e.doc_id != doc_id && (e.source == n.id || e.target
            == n.id) implies (after.nodes.contains(n) <==> store.nodes.contains(n)) by {
        lemma_linked_node_outlasts(store.edges, doc_id, e, n);
    }
}

/// Deleting the graph of a document leaves no edge without its nodes.
pub proof fn deleting_keeps_edges_sound(store: DbView, doc_id: Seq<char>)
    requires
        edges_are_sound(store),
    ensures
        edges_are_sound(without_graph(store, doc_id)),
{
    let after = without_graph(store, doc_id);
    table::lemma_filter_holds(store.edges, edge_of_other(doc_id));
    table::lemma_filter_holds(store.nodes, node_outlasts(store.edges, doc_id));
    assert forall|i: int| 0 <= i < after.edges.len() implies is_sound(
        after.nodes,
        #[trigger] after.edges[i],
    ) by {
        let e = after.edges[i];
        assert(edge_of_other(doc_id)(e));
        assert(after.edges.contains(e));
        let k = choose|k: int| 0 <= k < store.edges.len() && store.edges[k] == e;
        assert(is_sound(store.nodes, store.edges[k]));
        doc_nodes_differ(e.doc_id, doc_id);
        if e.target == graph::doc_node_id(doc_id) {
            assert(e.target.subrange(0, "doc_"@.len() as int) =~= "doc_"@);
        }
        let a = choose|a: int|
            0 <= a < store.nodes.len() && (#[trigger] store.nodes[a]).id == e.source;
        let b = choose|b: int|
            0 <= b < store.nodes.len() && (#[trigger] store.nodes[b]).id == e.target;
        lemma_linked_node_outlasts(store.edges, doc_id, e, store.nodes[a]);
        lemma_linked_node_outlasts(store.edges, doc_id, e, store.nodes[b]);
        assert(after.nodes.contains(store.nodes[a]));
        assert(after.nodes.contains(store.nodes[b]));
        let x = choose|x: int| 0 <= x < after.nodes.len() && after.nodes[x] == store.nodes[a];
        let y = choose|y: int| 0 <= y < after.nodes.len() && after.nodes[y] == store.nodes[b];
        assert(after.nodes[x].id == e.source);
        assert(after.nodes[y].id == e.target);
    }
}

/// Adding the graph of a document leaves every edge between stored nodes, and
/// each of the graph's nodes is known.
pub proof fn adding_keeps_edges_sound(
    store: DbView,
    doc_id: Seq<char>,
    title: Seq<char>,
    body: Seq<char>,
)
    requires
        edges_are_sound(store),
        table::pairwise(store.nodes, nodes_differ()),
    ensures
        ({
            let nodes = graph::graph_nodes(doc_id, title, body);
            let after = with_graph(store, nodes, graph::graph_edges(doc_id, title, body));
            &&& edges_are_sound(after)
            &&& table::pairwise(after.nodes, nodes_differ())
            &&& forall|i: int|
                0 <= i < nodes.len() ==> graph::has_id(after.nodes, (#[trigger] nodes[i]).id)
        }),
{
    let nodes = graph::graph_nodes(doc_id, title, body);
    let edges = graph::graph_edges(doc_id, title, body);
    let after = with_graph(store, nodes, edges);
    graph_nodes_are_known(store.nodes, nodes, nodes.len() as int);
    assert forall|i: int| 0 <= i < after.edges.len() implies is_sound(
        after.nodes,
        #[trigger] after.edges[i],
    ) by {
        if i < store.edges.len() {
            assert(is_sound(store.nodes, store.edges[i]));
        } else {
            let k = i - store.edges.len();
            assert(after.edges[i] == edges[k]);
            graph::edges_join_nodes_of_the_graph(
                doc_id,
                title,
                graph::links_of(body),
                graph::tags_of(body),
                graph::concepts_of(body),
                k,
            );
            assert(graph::has_id(after.nodes, nodes[0].id));
            let j = choose|j: int| 0 <= j < nodes.len() && (#[trigger] nodes[j]).id == edges[k].target;
            assert(graph::has_id(after.nodes, nodes[j].id));
        }
    }
}

/// Embeddings of the chunk.
pub open spec fn embedding_at(doc_id: Seq<char>, chunk_id: Seq<char>) -> spec_fn(
    EmbeddingRowView,
) -> bool {
    |e: EmbeddingRowView| e.doc_id == doc_id && e.chunk_id == chunk_id
}

/// A chunk has one embedding once one was stored, the one stored last, and its
/// document is no longer without an embedding.
pub proof fn stored_embedding_is_the_only_one(store: DbView, e: EmbeddingRowView)
    ensures
        with_embedding(store, e).embeddings.filter(embedding_at(e.doc_id, e.chunk_id)) == seq![e],
        table::any_where(with_embedding(store, e).embeddings, embedding_of(e.doc_id)),
{
    let beside = embedding_beside(e.doc_id, e.chunk_id);
    let here = embedding_at(e.doc_id, e.chunk_id);
    let kept = store.embeddings.filter(beside);
    table::lemma_filter_holds(store.embeddings, beside);
    assert forall|i: int| 0 <= i < kept.len() implies !here(#[trigger] kept[i]) by {
        assert(beside(kept[i]));
    }
    table::lemma_filter_none(kept, here);
    table::lemma_filter_push(kept, e, here);
    assert(Seq::<EmbeddingRowView>::empty().push(e) =~= seq![e]);
    assert(embedding_of(e.doc_id)(kept.push(e)[kept.len() as int]));
}

/// Whether a result is of a stored document, in the collection if one is given.
pub open spec fn is_result_of(
    store: DbView,
    collection: Option<Seq<char>>,
    r: SearchResultView,
) -> bool {
    match table::first_where(store.documents, doc_has_id(r.doc_id)) {
        Some(i) => doc_in(collection)(store.documents[i]) && r.collection == Some(
            store.documents[i].collection,
        ),
        None => false,
    }
}

/// Every result of a full-text search is a stored document of the collection.
pub proof fn full_text_results_are_stored(
    store: DbView,
    ranked: Seq<ChunkMatchView>,
    collection: Option<Seq<char>>,
    with_snippets: bool,
    n: int,
    k: int,
)
    requires
        0 <= k < results_upto(store, ranked, collection, with_snippets, n).len(),
    ensures
        is_result_of(
            store,
            collection,
            results_upto(store, ranked, collection, with_snippets, n)[k],
        ),
    decreases n,
{
    let before = results_upto(store, ranked, collection, with_snippets, n - 1);
    if k < before.len() {
        full_text_results_are_stored(store, ranked, collection, with_snippets, n - 1, k);
    }
}

/// Every result of a vector search is a stored document of the collection.
pub proof fn vector_results_are_stored(
    store: DbView,
    ids: Seq<Seq<char>>,
    collection: Option<Seq<char>>,
    n: int,
    k: int,
)
    requires
        0 <= k < documents_upto(store, ids, collection, n).len(),
    ensures
        is_result_of(store, collection, documents_upto(store, ids, collection, n)[k]),
    decreases n,
{
    let before = documents_upto(store, ids, collection, n - 1);
    if k < before.len() {
        vector_results_are_stored(store, ids, collection, n - 1, k);
    } else {
        table::lemma_first_from(store.documents, doc_has_id(ids[n - 1]), 0);
    }
}

/// The counts of the first `n` collections together.
pub open spec fn counts_upto(counts: Seq<(Seq<char>, int)>, n: int) -> int
    decreases n,
{
    if n <= 0 {
        0
    } else {
        counts_upto(counts, n - 1) + counts[n - 1].1
    }
}

/// Documents of one of the first `n` collections.
spec fn doc_in_first(names: Seq<Seq<char>>, n: int) -> spec_fn(DocumentView) -> bool {
    |d: DocumentView| exists|k: int| 0 <= k < n && #[trigger] names[k] == d.collection
}

/// The sorted names of the collections are all of them, each once.
proof fn lemma_sorted_names(docs: Seq<DocumentView>)
    ensures
        ({
            let names = table::distinct(collections_of(docs));
            let sorted = order::sorted_by_text(names, names);
            &&& sorted.no_duplicates()
            &&& forall|x: Seq<char>| #[trigger]
                sorted.contains(x) <==> collections_of(docs).contains(x)
        }),
{
    let names = table::distinct(collections_of(docs));
    let sorted = order::sorted_by_text(names, names);
    let r = order::the_order(names.len() as int, order::by_text(names));
    table::lemma_distinct(collections_of(docs));
    order::sorting_by_text_is_stable(names, names);
    order::lemma_by_text_total(names);
    assert forall|i: int, j: int| 0 <= i < j < sorted.len() implies sorted[i] != sorted[j] by {
        assert(0 <= r[i] < names.len() && 0 <= r[j] < names.len());
        text::lemma_lex_less_total(names[r[i]], names[r[j]]);
        if names[r[i]] == names[r[j]] {
            assert(r[i] < r[j]);
            assert(names[r[i]] != names[r[j]]);
        }
    }
    assert forall|x: Seq<char>| #[trigger]
        sorted.contains(x) <==> collections_of(docs).contains(x) by {
        assert(names.contains(x) == collections_of(docs).contains(x));
        if sorted.contains(x) {
            let i = choose|i: int| 0 <= i < sorted.len() && sorted[i] == x;
            assert(0 <= r[i] < names.len());
            assert(names[r[i]] == x);
        }
        if names.contains(x) {
            let k = choose|k: int| 0 <= k < names.len() && names[k] == x;
            assert(r.contains(k));
            let i = choose|i: int| 0 <= i < r.len() && r[i] == k;
            assert(sorted[i] == x);
        }
    }
}

/// The documents of the first collections are counted collection by collection.
proof fn lemma_counts(docs: Seq<DocumentView>, n: int)
    requires
        0 <= n <= collection_counts(docs).len(),
    ensures
        ({
            let names = table::distinct(collections_of(docs));
            let sorted = order::sorted_by_text(names, names);
            counts_upto(collection_counts(docs), n) == table::count_where(
                docs,
                doc_in_first(sorted, n),
            )
        }),
    decreases n,
{
    let names = table::distinct(collections_of(docs));
    let sorted = order::sorted_by_text(names, names);
    if n == 0 {
        table::lemma_filter_none(docs, doc_in_first(sorted, 0));
    } else {
        lemma_counts(docs, n - 1);
        lemma_sorted_names(docs);
        let p = doc_in_first(sorted, n - 1);
        let q = doc_in(Some(sorted[n - 1]));
        let r = doc_in_first(sorted, n);
        assert forall|i: int| 0 <= i < docs.len() implies (#[trigger] r(docs[i]) <==> p(docs[i])
            || q(docs[i])) by {
            if r(docs[i]) && !q(docs[i]) {
                let k = choose|k: int|
                    0 <= k < n && #[trigger] sorted[k] == docs[i].collection;
                assert(k < n - 1);
            }
            if p(docs[i]) {
                let k = choose|k: int|
                    0 <= k < n - 1 && #[trigger] sorted[k] == docs[i].collection;
                assert(sorted[k] == docs[i].collection);
            }
            if q(docs[i]) {
                assert(sorted[n - 1] == docs[i].collection);
            }
        }
        table::lemma_count_split(docs, p, q, r);
    }
}

/// The counts by collection add up to the number of documents.
pub proof fn collection_counts_add_up(docs: Seq<DocumentView>)
    ensures
        counts_upto(collection_counts(docs), collection_counts(docs).len() as int) == docs.len(),
{
    let names = table::distinct(collections_of(docs));
    let sorted = order::sorted_by_text(names, names);
    let n = collection_counts(docs).len() as int;
    lemma_counts(docs, n);
    lemma_sorted_names(docs);
    let all = doc_in_first(sorted, n);
    assert forall|i: int| 0 <= i < docs.len() implies all(#[trigger] docs[i]) by {
        assert(collections_of(docs)[i] == docs[i].collection);
        assert(collections_of(docs).contains(docs[i].collection));
        assert(sorted.contains(docs[i].collection));
        let k = choose|k: int| 0 <= k < sorted.len() && sorted[k] == docs[i].collection;
        assert(sorted[k] == docs[i].collection);
    }
    table::lemma_filter_all(docs, all);
}

/// Every edge is counted once in the statistics of a graph, and no node twice.
pub proof fn graph_counts_add_up(store: DbView, s: GraphStats)
    requires
        is_graph_stats(store, s),
    ensures
        s.extracted_edges + s.inferred_edges + s.ambiguous_edges == s.total_edges,
        s.doc_nodes + s.wikilink_nodes + s.tag_nodes <= s.total_nodes,
        s.isolated_docs <= s.doc_nodes,
{
    let x = edge_of_confidence(Confidence::Extracted);
    let i = edge_of_confidence(Confidence::Inferred);
    let a = edge_of_confidence(Confidence::Ambiguous);
    let xi = |e: EdgeView| e.confidence != Confidence::Ambiguous;
    let all = |e: EdgeView| true;
    table::lemma_count_split(store.edges, x, i, xi);
    table::lemma_count_split(store.edges, xi, a, all);
    table::lemma_filter_all(store.edges, all);
    let d = node_of_kind(NodeKind::Document);
    let w = node_of_kind(NodeKind::WikiLink);
    let t = node_of_kind(NodeKind::Tag);
    let c = node_of_kind(NodeKind::Concept);
    let dw = |n: NodeView| n.kind == NodeKind::Document || n.kind == NodeKind::WikiLink;
    let dwt = |n: NodeView| n.kind != NodeKind::Concept;
    let any = |n: NodeView| true;
    table::lemma_count_split(store.nodes, d, w, dw);
    table::lemma_count_split(store.nodes, dw, t, dwt);
    table::lemma_count_split(store.nodes, dwt, c, any);
    table::lemma_filter_all(store.nodes, any);
    let lone = unlinked_doc(store.edges);
    let linked = |n: NodeView| n.kind == NodeKind::Document && !lone(n);
    table::lemma_count_split(store.nodes, lone, linked, d);
}

/// A vector search ranks each scored document once, the highest scores first.
pub proof fn ranking_is_by_best_score(scores: Seq<(Seq<char>, int)>)
    ensures
        ranked_docs(scores).no_duplicates(),
        forall|i: int, j: int|
            0 <= i < j < ranked_docs(scores).len() ==> best_score(
                scores,
                #[trigger] ranked_docs(scores)[i],
            ) >= best_score(scores, #[trigger] ranked_docs(scores)[j]),
        forall|id: Seq<char>| #[trigger]
            ranked_docs(scores).contains(id) <==> scored_docs(scores).contains(id),
{
    let docs = table::distinct(scored_docs(scores));
    let keys = best_scores(scores, docs);
    let ranked = ranked_docs(scores);
    let r = order::the_order(docs.len() as int, order::by_key_desc(keys));
    table::lemma_distinct(scored_docs(scores));
    order::sorting_is_stable(docs, keys);
    order::lemma_by_key_total(keys);
    order::the_order_is_an_order(docs.len() as int, order::by_key_desc(keys));
    assert forall|i: int, j: int| 0 <= i < j < ranked.len() implies ranked[i] != ranked[j]
        && best_score(scores, #[trigger] ranked[i]) >= best_score(
        scores,
        #[trigger] ranked[j],
    ) by {
        assert(order::by_key_desc(keys)(r[i], r[j]));
        assert(0 <= r[i] < docs.len() && 0 <= r[j] < docs.len());
        assert(r[i] != r[j]);
        assert(keys[r[i]] == best_score(scores, docs[r[i]]));
        assert(keys[r[j]] == best_score(scores, docs[r[j]]));
    }
    assert forall|id: Seq<char>| #[trigger]
        ranked.contains(id) <==> scored_docs(scores).contains(id) by {
        assert(docs.contains(id) == scored_docs(scores).contains(id));
        if ranked.contains(id) {
            let i = choose|i: int| 0 <= i < ranked.len() && ranked[i] == id;
            assert(0 <= r[i] < docs.len());
            assert(docs[r[i]] == id);
        }
        if docs.contains(id) {
            let k = choose|k: int| 0 <= k < docs.len() && docs[k] == id;
            assert(r.contains(k));
            let i = choose|i: int| 0 <= i < r.len() && r[i] == k;
            assert(ranked[i] == id);
        }
    }
}

/// A document that was inserted or replaced is read back, and is the only one
/// with its identifier.
pub proof fn upserted_document_is_read_back(store: DbView, doc: DocumentView)
    ensures
        ({
            let after = with_document(store, doc);
            let found = table::first_where(after.documents, doc_has_id(doc.id));
            &&& found == Some(after.documents.len() - 1)
            &&& after.documents[found.unwrap()] == doc
            &&& after.documents.filter(doc_has_id(doc.id)) == seq![doc]
        }),
{
    let kept = store.documents.filter(doc_lacks_id(doc.id));
    let after = kept.push(doc);
    let p = doc_has_id(doc.id);
    table::lemma_filter_holds(store.documents, doc_lacks_id(doc.id));
    assert forall|j: int| 0 <= j < kept.len() implies !p(#[trigger] after[j]) by {
        assert(doc_lacks_id(doc.id)(kept[j]));
    }
    table::lemma_is_first(after, p, kept.len() as int);
    assert forall|j: int| 0 <= j < kept.len() implies !p(#[trigger] kept[j]) by {
        assert(after[j] == kept[j]);
    }
    table::lemma_filter_none(kept, p);
    table::lemma_filter_push(kept, doc, p);
    assert(Seq::<DocumentView>::empty().push(doc) =~= seq![doc]);
}

/// Each result of a vector search is of one of the documents searched, and a
/// searched document that is stored in the collection has a result.
proof fn lemma_documents_found(
    store: DbView,
    ids: Seq<Seq<char>>,
    collection: Option<Seq<char>>,
    n: int,
)
    requires
        0 <= n <= ids.len(),
    ensures
        forall|k: int|
            0 <= k < documents_upto(store, ids, collection, n).len() ==> ids.take(n).contains(
                (#[trigger] documents_upto(store, ids, collection, n)[k]).doc_id,
            ),
    decreases n,
{
    if n > 0 {
        lemma_documents_found(store, ids, collection, n - 1);
        let before = documents_upto(store, ids, collection, n - 1);
        let now = documents_upto(store, ids, collection, n);
        table::lemma_first_from(store.documents, doc_has_id(ids[n - 1]), 0);
        assert forall|k: int| 0 <= k < now.len() implies ids.take(n).contains(
            (#[trigger] now[k]).doc_id,
        ) by {
            if k < before.len() {
                assert(now[k] == before[k]);
                let shorter = ids.take(n - 1);
                assert(shorter.contains(before[k].doc_id));
                let j = choose|j: int| 0 <= j < shorter.len() && shorter[j] == before[k].doc_id;
                assert(ids.take(n)[j] == now[k].doc_id);
            } else {
                assert(ids.take(n)[n - 1] == now[k].doc_id);
            }
        }
    }
}

/// A vector search returns the best of the collection: where a scored document
/// that is stored in the collection is not among the results, there are as many
/// as were wanted, and none of them has a lower score.
pub proof fn vector_results_are_the_best(
    store: DbView,
    scores: Seq<(Seq<char>, int)>,
    limit: int,
    collection: Option<Seq<char>>,
    id: Seq<char>,
)
    requires
        0 <= limit,
        scored_docs(scores).contains(id),
        table::first_where(store.documents, doc_has_id(id)) matches Some(i) && doc_in(collection)(
            store.documents[i],
        ),
        !has_result(vector_results(store, scores, limit, collection), id),
    ensures
        ({
            let found = vector_results(store, scores, limit, collection);
            &&& found.len() == limit
            &&& forall|k: int|
                0 <= k < found.len() ==> best_score(scores, (#[trigger] found[k]).doc_id)
                    >= best_score(scores, id)
        }),
{
    let ids = ranked_docs(scores);
    let found = vector_results(store, scores, limit, collection);
    let all = documents_upto(store, ids, collection, ids.len() as int);
    ranking_is_by_best_score(scores);
    assert(ids.contains(id));
    let j = choose|j: int| 0 <= j < ids.len() && ids[j] == id;
    let before = documents_upto(store, ids, collection, j);
    let now = documents_upto(store, ids, collection, j + 1);
    table::lemma_first_from(store.documents, doc_has_id(id), 0);
    assert(now.last().doc_id == id);
    assert(now.len() == before.len() + 1);
    lemma_documents_upto(store, ids, collection, j + 1, ids.len() as int);
    lemma_documents_upto(store, ids, collection, j, ids.len() as int);
    let at = before.len() as int;
    assert(all[at] == all.take(now.len() as int)[at]);
    assert(all[at].doc_id == id);
    if at < limit {
        assert(found[at] == all[at]);
    }
    assert(found =~= all.take(limit));
    lemma_documents_found(store, ids, collection, j);
    assert forall|k: int| 0 <= k < found.len() implies best_score(
        scores,
        (#[trigger] found[k]).doc_id,
    ) >= best_score(scores, id) by {
        assert(found[k] == all.take(at)[k]);
        assert(before[k] == found[k]);
        let top = ids.take(j);
        assert(top.contains(before[k].doc_id));
        let x = choose|x: int| 0 <= x < top.len() && top[x] == before[k].doc_id;
        assert(ids[x] == found[k].doc_id);
        assert(best_score(scores, ids[x]) >= best_score(scores, ids[j]));
    }
}

/// The results of a vector search are of different documents, the best first, and
/// no more than were wanted.
pub proof fn vector_results_are_ranked(
    store: DbView,
    scores: Seq<(Seq<char>, int)>,
    limit: int,
    collection: Option<Seq<char>>,
)
    requires
        0 <= limit,
    ensures
        ({
            let found = vector_results(store, scores, limit, collection);
            &&& found.len() <= limit
            &&& forall|a: int, b: int|
                0 <= a < b < found.len() ==> (#[trigger] found[a]).doc_id != (
                #[trigger] found[b]).doc_id && best_score(scores, found[a].doc_id) >= best_score(
                    scores,
                    found[b].doc_id,
                )
        }),
{
    let ids = ranked_docs(scores);
    ranking_is_by_best_score(scores);
    lemma_documents_ranked(store, scores, collection, ids.len() as int);
}

proof fn lemma_documents_ranked(
    store: DbView,
    scores: Seq<(Seq<char>, int)>,
    collection: Option<Seq<char>>,
    n: int,
)
    requires
        0 <= n <= ranked_docs(scores).len(),
    ensures
        ({
            let found = documents_upto(store, ranked_docs(scores), collection, n);
            forall|a: int, b: int|
                0 <= a < b < found.len() ==> (#[trigger] found[a]).doc_id != (
                #[trigger] found[b]).doc_id && best_score(scores, found[a].doc_id) >= best_score(
                    scores,
                    found[b].doc_id,
                )
        }),
    decreases n,
{
    if n > 0 {
        let ids = ranked_docs(scores);
        lemma_documents_ranked(store, scores, collection, n - 1);
        lemma_documents_found(store, ids, collection, n - 1);
        ranking_is_by_best_score(scores);
        table::lemma_first_from(store.documents, doc_has_id(ids[n - 1]), 0);
        let before = documents_upto(store, ids, collection, n - 1);
        let found = documents_upto(store, ids, collection, n);
        assert forall|a: int, b: int| 0 <= a < b < found.len() implies (
        #[trigger] found[a]).doc_id != (#[trigger] found[b]).doc_id && best_score(
            scores,
            found[a].doc_id,
        ) >= best_score(scores, found[b].doc_id) by {
            assert(found[a] == before[a]);
            if b < before.len() {
                assert(found[b] == before[b]);
            } else {
                assert(found[b].doc_id == ids[n - 1]);
                let top = ids.take(n - 1);
                assert(top.contains(before[a].doc_id));
                let x = choose|x: int| 0 <= x < top.len() && top[x] == before[a].doc_id;
                assert(ids[x] == found[a].doc_id);
                assert(ids[x] != ids[n - 1]);
                assert(best_score(scores, ids[x]) >= best_score(scores, ids[n - 1]));
            }
        }
    }
}

} // verus!
