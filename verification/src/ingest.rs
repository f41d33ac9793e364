//! Adding documents to the store, and what the store promises about them.

use vstd::prelude::*;

use crate::chunk;
use crate::db;
use crate::db::{Db, DbView};
use crate::document;
use crate::document::{Document, DocumentView, Timestamp};
use crate::fetch;
use crate::graph;
use crate::table;
use crate::text;
use crate::traverse;

verus! {

/// The document that a text is stored as.
pub open spec fn document_for(
    raw: Seq<char>,
    path: Seq<char>,
    collection: Seq<char>,
    fallback: Seq<char>,
    now: Timestamp,
) -> DocumentView {
    let fields = document::frontmatter_of(raw);
    DocumentView {
        id: document::content_id_of(raw),
        path,
        collection,
        title: document::title_of(fields, raw, fallback),
        content: raw,
        frontmatter: fields,
        added_at: now,
        content_hash: document::content_hash_of(raw),
    }
}

/// The store with a document, its chunks and its graph.
pub open spec fn stored(store: DbView, doc: DocumentView) -> DbView {
    let body = document::body_of(doc.content);
    db::with_graph(
        db::with_chunks(
            db::with_document(store, doc),
            chunk::chunks_of(doc.id, doc.title, body),
        ),
        graph::graph_nodes(doc.id, doc.title, body),
        graph::graph_edges(doc.id, doc.title, body),
    )
}

/// The store without the document at a path.
pub open spec fn without_path(store: DbView, path: Seq<char>) -> DbView {
    match table::first_where(store.documents, db::doc_has_path(path)) {
        Some(i) => db::without_document(store, store.documents[i].id),
        None => store,
    }
}

/// Whether a text is stored already.
pub open spec fn has_content(store: DbView, raw: Seq<char>) -> bool {
    table::first_where(store.documents, db::doc_has_hash(document::content_hash_of(raw))) is Some
}

/// The identifier under which a stored text is known.
pub open spec fn known_id(store: DbView, raw: Seq<char>) -> Seq<char> {
    let hash = document::content_hash_of(raw);
    store.documents[table::first_where(store.documents, db::doc_has_hash(hash)).unwrap()].id
}

/// The document at a path, where its content is another than the text.
pub open spec fn outdated_at(store: DbView, path: Seq<char>, raw: Seq<char>) -> Option<int> {
    match table::first_where(store.documents, db::doc_has_path(path)) {
        Some(i) => if store.documents[i].content_hash == document::content_hash_of(raw) {
            None
        } else {
            Some(i)
        },
        None => None,
    }
}

/// The store without the document at a path whose content has become the text.
pub open spec fn without_outdated(store: DbView, path: Seq<char>, raw: Seq<char>) -> DbView {
    match outdated_at(store, path, raw) {
        Some(i) => db::without_document(store, store.documents[i].id),
        None => store,
    }
}

/// The store after a text was added, the text's identifier, and whether it was
/// skipped because it is stored already.
pub open spec fn ingested(
    store: DbView,
    raw: Seq<char>,
    path: Seq<char>,
    collection: Seq<char>,
    fallback: Seq<char>,
    force: bool,
    now: Timestamp,
) -> (DbView, Seq<char>, bool) {
    if !force && has_content(store, raw) {
        (without_outdated(store, path, raw), known_id(store, raw), true)
    } else {
        (
            stored(
                without_path(store, path),
                document_for(raw, path, collection, fallback, now),
            ),
            document::content_id_of(raw),
            false,
        )
    }
}

/// Adds a text to the store under `path`, with `fallback` for a title where the
/// text has none. A text that is stored already is skipped unless `force` is set;
/// a document that stands at `path` with another content goes all the same.
/// Returns the document's ID and whether it was skipped.
fn ingest(
    store: &mut Db,
    raw: &str,
    path: &str,
    collection: &str,
    fallback: &str,
    force: bool,
    now: Timestamp,
) -> (r: (String, bool))
    ensures
        (final(store)@, r.0@, r.1) == ingested(
            old(store)@,
            raw@,
            path@,
            collection@,
            fallback@,
            force,
            now,
        ),
{
    let hash = document::sha256_hex(raw);
    if !force {
        if let Some(existing) = store.find_by_hash(hash.as_str()) {
            if let Some(i) = store.document_at_path(path) {
                assert(store@.documents[i as int] == store.documents@[i as int]@);
                if !text::same(store.documents[i].content_hash.as_str(), hash.as_str()) {
                    let old_id = store.documents[i].id.clone();
                    proof {
                        lemma_first_has_id(store@, path@);
                    }
                    let _ = store.delete_document(old_id.as_str());
                }
            }
            return (existing, true);
        }
    }
    if let Some(old_id) = store.find_by_path(path) {
        proof {
            lemma_first_has_id(store@, path@);
        }
        let _ = store.delete_document(old_id.as_str());
    }
    let id = document::content_id(raw);
    let (fields, body) = document::parse_frontmatter(raw);
    let title = document::choose_title(&fields, raw, fallback);
    let doc = Document {
        id: id.clone(),
        path: path.to_owned(),
        collection: collection.to_owned(),
        title: title.clone(),
        content: raw.to_owned(),
        frontmatter: fields,
        added_at: now,
        content_hash: hash,
    };
    store.upsert_document(&doc);
    let chunks = chunk::chunk_document(id.as_str(), title.as_str(), body);
    store.insert_chunks(&chunks);
    let (nodes, edges) = graph::extract_graph(id.as_str(), title.as_str(), body);
    store.insert_graph(&nodes, &edges);
    (id, false)
}

/// The document at a path is found under its identifier.
proof fn lemma_first_has_id(store: DbView, path: Seq<char>)
    requires
        table::first_where(store.documents, db::doc_has_path(path)) is Some,
    ensures
        ({
            let i = table::first_where(store.documents, db::doc_has_path(path)).unwrap();
            table::first_where(
                store.documents,
                db::doc_has_id(store.documents[i].id),
            ) is Some
        }),
{
    table::lemma_first_from(store.documents, db::doc_has_path(path), 0);
    let i = table::first_where(store.documents, db::doc_has_path(path)).unwrap();
    let p = db::doc_has_id(store.documents[i].id);
    table::lemma_first_from(store.documents, p, 0);
    assert(p(store.documents[i]));
}

/// Ingests raw markdown content (for example, fetched from a URL).
/// `path` is stored as the document's path field (typically the source URL) and
/// is the title of a document without one. Returns `(doc_id, was_skipped)`.
pub fn ingest_content(
    store: &mut Db,
    raw: &str,
    path: &str,
    collection: &str,
    force: bool,
    now: Timestamp,
) -> (r: (String, bool))
    ensures
        (final(store)@, r.0@, r.1) == ingested(
            old(store)@,
            raw@,
            path@,
            collection@,
            path@,
            force,
            now,
        ),
{
    ingest(store, raw, path, collection, path, force, now)
}

/// Ingests the text of a single markdown file into the store; `stem` is the
/// file's name without its extension, and the title of a document without one.
/// Returns `(doc_id, was_skipped)`.
pub fn ingest_file(
    store: &mut Db,
    raw: &str,
    path: &str,
    stem: &str,
    collection: &str,
    force: bool,
    now: Timestamp,
) -> (r: (String, bool))
    ensures
        (final(store)@, r.0@, r.1) == ingested(
            old(store)@,
            raw@,
            path@,
            collection@,
            stem@,
            force,
            now,
        ),
{
    ingest(store, raw, path, collection, stem, force, now)
}

/// Whether the store holds a page under its address, whenever it was fetched.
pub open spec fn has_page(store: DbView, url: Seq<char>, html: Seq<char>) -> bool {
    match table::first_where(store.documents, db::doc_has_path(url)) {
        Some(i) => fetch::is_version_of(
            store.documents[i].content,
            fetch::stored_title(url, html),
            url,
            fetch::page_text(html),
        ),
        None => false,
    }
}

/// The store after a page was added, the page's identifier, and whether it was
/// skipped as unchanged.
pub open spec fn page_ingested(
    store: DbView,
    url: Seq<char>,
    html: Seq<char>,
    fetched_at: Seq<char>,
    collection: Seq<char>,
    force: bool,
    now: Timestamp,
) -> (DbView, Seq<char>, bool) {
    if !force && has_page(store, url, html) {
        let i = table::first_where(store.documents, db::doc_has_path(url)).unwrap();
        (store, store.documents[i].id, true)
    } else {
        ingested(
            store,
            fetch::page_document(
                fetch::stored_title(url, html),
                url,
                fetched_at,
                fetch::page_text(html),
            ),
            url,
            collection,
            url,
            force,
            now,
        )
    }
}

/// Ingests a fetched web page under its address. A page whose title and text
/// are those of the stored one is skipped unless `force` is set, though it was
/// fetched at another time. Returns the page's title and `(doc_id, was_skipped)`.
pub fn ingest_page(
    store: &mut Db,
    url: &str,
    html: &str,
    fetched_at: &str,
    collection: &str,
    force: bool,
    now: Timestamp,
) -> (r: (String, (String, bool)))
    ensures
        r.0@ == fetch::stored_title(url@, html@),
        (final(store)@, r.1.0@, r.1.1) == page_ingested(
            old(store)@,
            url@,
            html@,
            fetched_at@,
            collection@,
            force,
            now,
        ),
{
    let page = fetch::page_from_html(url, html);
    if !force {
        if let Some(i) = store.document_at_path(url) {
            let known = page.same_page(
                store.documents[i].content.as_str(),
                Ghost(url@),
                Ghost(html@),
            );
            assert(store@.documents[i as int].content == store.documents@[i as int].content@);
            if known {
                return (page.title, (store.documents[i].id.clone(), true));
            }
        }
    }
    let content = page.document(fetched_at);
    let added = ingest_content(store, content.as_str(), url, collection, force, now);
    (page.title, added)
}

// ---------------------------------------------------------------------------
// Laws
// ---------------------------------------------------------------------------

/// Two documents have different identifiers.
pub open spec fn ids_differ() -> spec_fn(DocumentView, DocumentView) -> bool {
    |a: DocumentView, b: DocumentView| a.id != b.id
}

/// Two documents have different paths.
pub open spec fn paths_differ() -> spec_fn(DocumentView, DocumentView) -> bool {
    |a: DocumentView, b: DocumentView| a.path != b.path
}

/// Whether a document is identified by its content.
pub open spec fn is_identified(d: DocumentView) -> bool {
    d.id == document::content_id_of(d.content) && d.content_hash == document::content_hash_of(
        d.content,
    )
}

/// Whether a store's documents are identified by their contents, each stored
/// once and each path in use once, its nodes are distinct, and every edge joins
/// stored nodes.
pub open spec fn is_valid(store: DbView) -> bool {
    &&& table::pairwise(store.documents, ids_differ())
    &&& table::pairwise(store.documents, paths_differ())
    &&& table::pairwise(store.nodes, db::nodes_differ())
    &&& db::edges_are_sound(store)
    &&& forall|i: int|
        0 <= i < store.documents.len() ==> is_identified(#[trigger] store.documents[i])
}

/// An empty store is valid.
pub proof fn empty_store_is_valid()
    ensures
        is_valid(db::empty_db()),
{
}

/// Keeping some of the documents keeps a store valid.
proof fn lemma_valid_filter(store: DbView, rest: DbView, p: spec_fn(DocumentView) -> bool)
    requires
        is_valid(store),
        rest.documents == store.documents.filter(p),
        table::pairwise(rest.nodes, db::nodes_differ()),
        db::edges_are_sound(rest),
    ensures
        is_valid(rest),
{
    table::lemma_pairwise_filter(store.documents, ids_differ(), p);
    table::lemma_pairwise_filter(store.documents, paths_differ(), p);
    table::lemma_filter_holds(store.documents, p);
    assert forall|i: int| 0 <= i < rest.documents.len() implies is_identified(
        #[trigger] rest.documents[i],
    ) by {
        assert(rest.documents.contains(rest.documents[i]));
        let k = choose|k: int|
            0 <= k < store.documents.len() && store.documents[k] == rest.documents[i];
        assert(is_identified(store.documents[k]));
    }
}

/// Deleting a document keeps a store valid.
pub proof fn deleting_keeps_the_store_valid(store: DbView, id: Seq<char>)
    requires
        is_valid(store),
    ensures
        is_valid(db::without_document(store, id)),
{
    db::deleting_keeps_nodes_distinct(store, id);
    db::deleting_keeps_edges_sound(store, id);
    assert(db::edges_are_sound(db::without_document(store, id))) by {
        let after = db::without_document(store, id);
        assert(after.edges == db::without_graph(store, id).edges);
        assert(after.nodes == db::without_graph(store, id).nodes);
        assert forall|i: int| 0 <= i < after.edges.len() implies db::is_sound(
            after.nodes,
            #[trigger] after.edges[i],
        ) by {
            assert(db::is_sound(after.nodes, db::without_graph(store, id).edges[i]));
        }
    }
    lemma_valid_filter(store, db::without_document(store, id), db::doc_lacks_id(id));
}

/// Once the document at a path is gone, no document has that path.
proof fn lemma_path_is_free(store: DbView, path: Seq<char>)
    requires
        is_valid(store),
    ensures
        is_valid(without_path(store, path)),
        forall|i: int|
            0 <= i < without_path(store, path).documents.len() ==> (#[trigger] without_path(
                store,
                path,
            ).documents[i]).path != path,
        forall|d: DocumentView| #[trigger]
            without_path(store, path).documents.contains(d) <==> store.documents.contains(d)
                && d.path != path,
{
    let docs = store.documents;
    table::lemma_first_from(docs, db::doc_has_path(path), 0);
    match table::first_where(docs, db::doc_has_path(path)) {
        Some(i) => {
            let p = db::doc_lacks_id(docs[i].id);
            let rest = without_path(store, path).documents;
            deleting_keeps_the_store_valid(store, docs[i].id);
            table::lemma_filter_holds(docs, p);
            assert(rest == docs.filter(p));
            assert forall|d: DocumentView| docs.contains(d) implies (d.id != docs[i].id) == (d.path
                != path) by {
                let k = choose|k: int| 0 <= k < docs.len() && docs[k] == d;
                if k < i {
                    assert(ids_differ()(docs[k], docs[i]));
                    assert(paths_differ()(docs[k], docs[i]));
                } else if i < k {
                    assert(ids_differ()(docs[i], docs[k]));
                    assert(paths_differ()(docs[i], docs[k]));
                }
            }
            assert forall|k: int| 0 <= k < rest.len() implies (#[trigger] rest[k]).path != path by {
                assert(rest.contains(rest[k]));
            }
        },
        None => {
            assert forall|d: DocumentView| docs.contains(d) implies d.path != path by {
                let k = choose|k: int| 0 <= k < docs.len() && docs[k] == d;
                assert(!db::doc_has_path(path)(docs[k]));
            }
        },
    }
}

/// Adding a text keeps a store valid.
pub proof fn ingesting_keeps_the_store_valid(
    store: DbView,
    raw: Seq<char>,
    path: Seq<char>,
    collection: Seq<char>,
    fallback: Seq<char>,
    force: bool,
    now: Timestamp,
)
    requires
        is_valid(store),
    ensures
        is_valid(ingested(store, raw, path, collection, fallback, force, now).0),
{
    if !force && has_content(store, raw) {
        if let Some(i) = outdated_at(store, path, raw) {
            deleting_keeps_the_store_valid(store, store.documents[i].id);
        }
    } else {
        let doc = document_for(raw, path, collection, fallback, now);
        let base = without_path(store, path);
        lemma_path_is_free(store, path);
        let p = db::doc_lacks_id(doc.id);
        let mid = DbView { documents: base.documents.filter(p), ..base };
        lemma_valid_filter(base, mid, p);
        table::lemma_filter_holds(base.documents, p);
        let docs = ingested(store, raw, path, collection, fallback, force, now).0.documents;
        let body = document::body_of(raw);
        let chunked = db::with_chunks(
            db::with_document(base, doc),
            chunk::chunks_of(doc.id, doc.title, body),
        );
        assert(db::edges_are_sound(chunked)) by {
            assert(chunked.edges == base.edges && chunked.nodes == base.nodes);
        }
        db::adding_keeps_edges_sound(chunked, doc.id, doc.title, body);
        assert(docs == mid.documents.push(doc));
        assert forall|i: int, j: int| 0 <= i < j < docs.len() implies ids_differ()(
            #[trigger] docs[i],
            #[trigger] docs[j],
        ) && paths_differ()(docs[i], docs[j]) by {
            if j == mid.documents.len() {
                assert(p(mid.documents[i]));
                assert(mid.documents.contains(mid.documents[i]));
                let k = choose|k: int|
                    0 <= k < base.documents.len() && base.documents[k] == mid.documents[i];
                assert(base.documents[k].path != path);
            } else {
                assert(ids_differ()(mid.documents[i], mid.documents[j]));
                assert(paths_differ()(mid.documents[i], mid.documents[j]));
            }
        }
        assert forall|i: int| 0 <= i < docs.len() implies is_identified(#[trigger] docs[i]) by {
            if i < mid.documents.len() {
                assert(is_identified(mid.documents[i]));
            }
        }
    }
}

/// Deleting a document of a valid store leaves each other one to be found under
/// its identifier.
proof fn lemma_other_document_stays(store: DbView, i: int, gone: int)
    requires
        is_valid(store),
        0 <= i < store.documents.len(),
        0 <= gone < store.documents.len(),
        i != gone,
    ensures
        ({
            let after = db::without_document(store, store.documents[gone].id).documents;
            let found = table::first_where(after, db::doc_has_id(store.documents[i].id));
            &&& found is Some
            &&& after[found.unwrap()] == store.documents[i]
        }),
{
    let docs = store.documents;
    let id = docs[gone].id;
    let after = db::without_document(store, id).documents;
    assert(after == docs.filter(db::doc_lacks_id(id)));
    table::lemma_filter_holds(docs, db::doc_lacks_id(id));
    if i < gone {
        assert(ids_differ()(docs[i], docs[gone]));
    } else {
        assert(ids_differ()(docs[gone], docs[i]));
    }
    assert(docs.contains(docs[i]));
    assert(after.contains(docs[i]));
    let k = choose|k: int| 0 <= k < after.len() && after[k] == docs[i];
    let p = db::doc_has_id(docs[i].id);
    assert(p(after[k]));
    table::lemma_first_from(after, p, 0);
    let f = table::first_where(after, p).unwrap();
    assert(after.contains(after[f]));
    let j = choose|j: int| 0 <= j < docs.len() && docs[j] == after[f];
    if j < i {
        assert(ids_differ()(docs[j], docs[i]));
    } else if i < j {
        assert(ids_differ()(docs[i], docs[j]));
    }
}

/// What was added can be read back: the identifier that adding a text returns
/// is that of a stored document with the text as its content, unless another
/// text was stored with the same hash.
pub proof fn added_text_is_read_back(
    store: DbView,
    raw: Seq<char>,
    path: Seq<char>,
    collection: Seq<char>,
    fallback: Seq<char>,
    force: bool,
    now: Timestamp,
)
    requires
        is_valid(store),
    ensures
        ({
            let (after, id, skipped) = ingested(
                store,
                raw,
                path,
                collection,
                fallback,
                force,
                now,
            );
            let found = table::first_where(after.documents, db::doc_has_id(id));
            &&& found is Some
            &&& id == document::content_id_of(raw)
            &&& after.documents[found.unwrap()].content_hash == document::content_hash_of(raw)
            &&& !skipped ==> after.documents[found.unwrap()] == document_for(
                raw,
                path,
                collection,
                fallback,
                now,
            )
        }),
{
    let (after, id, skipped) = ingested(store, raw, path, collection, fallback, force, now);
    let hash = document::content_hash_of(raw);
    if skipped {
        table::lemma_first_from(store.documents, db::doc_has_hash(hash), 0);
        let i = table::first_where(store.documents, db::doc_has_hash(hash)).unwrap();
        assert(is_identified(store.documents[i]));
        let p = db::doc_has_id(id);
        table::lemma_first_from(store.documents, p, 0);
        assert(p(store.documents[i]));
        let k = table::first_where(store.documents, p).unwrap();
        if k < i {
            assert(ids_differ()(store.documents[k], store.documents[i]));
        }
        if let Some(o) = outdated_at(store, path, raw) {
            table::lemma_first_from(store.documents, db::doc_has_path(path), 0);
            lemma_other_document_stays(store, i, o);
        }
    } else {
        let doc = document_for(raw, path, collection, fallback, now);
        db::upserted_document_is_read_back(without_path(store, path), doc);
    }
}

/// Adding a text that was added before changes nothing, at its own path or at one
/// where no other content stands: the text is skipped and known under the same
/// identifier.
pub proof fn adding_again_is_a_no_op(
    store: DbView,
    raw: Seq<char>,
    path: Seq<char>,
    collection: Seq<char>,
    fallback: Seq<char>,
    force: bool,
    now: Timestamp,
    path2: Seq<char>,
    collection2: Seq<char>,
    fallback2: Seq<char>,
    later: Timestamp,
)
    requires
        is_valid(store),
        path2 == path || outdated_at(
            ingested(store, raw, path, collection, fallback, force, now).0,
            path2,
            raw,
        ) is None,
    ensures
        ({
            let (after, id, skipped) = ingested(
                store,
                raw,
                path,
                collection,
                fallback,
                force,
                now,
            );
            ingested(after, raw, path2, collection2, fallback2, false, later) == (after, id, true)
        }),
{
    let (after, id, skipped) = ingested(store, raw, path, collection, fallback, force, now);
    let hash = document::content_hash_of(raw);
    ingesting_keeps_the_store_valid(store, raw, path, collection, fallback, force, now);
    added_text_is_read_back(store, raw, path, collection, fallback, force, now);
    let k = table::first_where(after.documents, db::doc_has_id(id)).unwrap();
    table::lemma_first_from(after.documents, db::doc_has_id(id), 0);
    let p = db::doc_has_hash(hash);
    table::lemma_first_from(after.documents, p, 0);
    assert(p(after.documents[k]));
    let i = table::first_where(after.documents, p).unwrap();
    assert(is_identified(after.documents[i]));
    assert(is_identified(after.documents[k]));
    assert(after.documents[i].id == id);
    if outdated_at(after, path, raw) is Some {
        table::lemma_first_from(after.documents, db::doc_has_path(path), 0);
        let o = table::first_where(after.documents, db::doc_has_path(path)).unwrap();
        assert(after.documents.contains(after.documents[o]));
        changed_content_replaces_the_record(
            store,
            raw,
            path,
            collection,
            fallback,
            force,
            now,
            after.documents[o],
        );
    }
}

/// A text that is stored under another path is not stored a second time: no
/// document is added, and at a path where no other content stands the store
/// does not change at all.
pub proof fn renaming_makes_no_duplicate(
    store: DbView,
    raw: Seq<char>,
    path: Seq<char>,
    collection: Seq<char>,
    fallback: Seq<char>,
    now: Timestamp,
    i: int,
)
    requires
        0 <= i < store.documents.len(),
        is_identified(store.documents[i]),
        store.documents[i].content == raw,
    ensures
        ({
            let (after, id, skipped) = ingested(
                store,
                raw,
                path,
                collection,
                fallback,
                false,
                now,
            );
            &&& skipped
            &&& outdated_at(store, path, raw) is None ==> after == store
            &&& after.documents.len() <= store.documents.len()
            &&& forall|d: DocumentView| #[trigger]
                after.documents.contains(d) ==> store.documents.contains(d)
        }),
{
    let p = db::doc_has_hash(document::content_hash_of(raw));
    table::lemma_first_from(store.documents, p, 0);
    assert(p(store.documents[i]));
    if let Some(o) = outdated_at(store, path, raw) {
        let q = db::doc_lacks_id(store.documents[o].id);
        table::lemma_filter_holds(store.documents, q);
        store.documents.lemma_filter_len(q);
    }
}

/// When the content at a path changes, the old record is replaced: no document
/// with another content is left at the path. The path's one document is the new
/// one, with the identifier of the new content, unless that content is stored
/// under another path. The documents at other paths stay, unless their
/// identifier is that of a content that was stored anew.
pub proof fn changed_content_replaces_the_record(
    store: DbView,
    raw: Seq<char>,
    path: Seq<char>,
    collection: Seq<char>,
    fallback: Seq<char>,
    force: bool,
    now: Timestamp,
    d: DocumentView,
)
    requires
        is_valid(store),
    ensures
        ({
            let (after, id, skipped) = ingested(
                store,
                raw,
                path,
                collection,
                fallback,
                force,
                now,
            );
            let doc = document_for(raw, path, collection, fallback, now);
            &&& d.path == path ==> (after.documents.contains(d) <==> if skipped {
                store.documents.contains(d) && d.content_hash == doc.content_hash
            } else {
                d == doc
            })
            &&& d.path == path && d.content_hash != doc.content_hash ==> !after.documents.contains(
                d,
            )
            &&& d.path != path && (skipped || d.id != doc.id) ==> (after.documents.contains(d)
                <==> store.documents.contains(d))
        }),
{
    let after = ingested(store, raw, path, collection, fallback, force, now).0;
    let doc = document_for(raw, path, collection, fallback, now);
    if !force && has_content(store, raw) {
        lemma_outdated_goes(store, path, raw, d);
    } else {
        let base = without_path(store, path);
        lemma_path_is_free(store, path);
        let p = db::doc_lacks_id(doc.id);
        let kept = base.documents.filter(p);
        table::lemma_filter_holds(base.documents, p);
        assert(after.documents == kept.push(doc));
        assert(after.documents[kept.len() as int] == doc);
        assert(kept.contains(d) <==> base.documents.contains(d) && p(d));
        assert(base.documents.contains(d) <==> store.documents.contains(d) && d.path != path);
        if kept.contains(d) {
            let k = choose|k: int| 0 <= k < kept.len() && kept[k] == d;
            assert(after.documents[k] == d);
        }
        if after.documents.contains(d) && d != doc {
            let k = choose|k: int| 0 <= k < after.documents.len() && after.documents[k] == d;
            assert(kept[k] == d);
        }
    }
}

/// Of a valid store only the document with another content leaves the path.
proof fn lemma_outdated_goes(store: DbView, path: Seq<char>, raw: Seq<char>, d: DocumentView)
    requires
        is_valid(store),
    ensures
        without_outdated(store, path, raw).documents.contains(d) <==> store.documents.contains(d)
            && !(d.path == path && d.content_hash != document::content_hash_of(raw)),
{
    let docs = store.documents;
    let hash = document::content_hash_of(raw);
    table::lemma_first_from(docs, db::doc_has_path(path), 0);
    match table::first_where(docs, db::doc_has_path(path)) {
        Some(i) => {
            if docs.contains(d) {
                let k = choose|k: int| 0 <= k < docs.len() && docs[k] == d;
                if k < i {
                    assert(ids_differ()(docs[k], docs[i]));
                    assert(paths_differ()(docs[k], docs[i]));
                } else if i < k {
                    assert(ids_differ()(docs[i], docs[k]));
                    assert(paths_differ()(docs[i], docs[k]));
                }
            }
            let p = db::doc_lacks_id(docs[i].id);
            table::lemma_filter_holds(docs, p);
            if docs[i].content_hash != hash {
                assert(without_outdated(store, path, raw).documents == docs.filter(p));
                assert(docs.filter(p).contains(d) <==> docs.contains(d) && p(d));
            }
        },
        None => {
            if docs.contains(d) {
                let k = choose|k: int| 0 <= k < docs.len() && docs[k] == d;
                assert(!db::doc_has_path(path)(docs[k]));
            }
        },
    }
}

/// After a document is deleted, nothing but its embeddings is left of it: no
/// record, no chunk, no edge, no node of its own and none that only it linked.
pub proof fn deleting_leaves_nothing_behind(store: DbView, id: Seq<char>)
    ensures
        ({
            let after = db::without_document(store, id);
            &&& table::first_where(after.documents, db::doc_has_id(id)) is None
            &&& forall|i: int|
                0 <= i < after.chunks.len() ==> (#[trigger] after.chunks[i]).doc_id != id
            &&& forall|i: int|
                0 <= i < after.edges.len() ==> (#[trigger] after.edges[i]).doc_id != id
            &&& forall|i: int|
                0 <= i < after.nodes.len() ==> (#[trigger] after.nodes[i]).id
                    != graph::doc_node_id(id)
            &&& forall|i: int|
                0 <= i < after.nodes.len() && (#[trigger] after.nodes[i]).kind
                    != graph::NodeKind::Document && after.nodes[i].doc_id is None
                    ==> !db::is_orphaned(store.edges, id, after.nodes[i].id)
            &&& after.embeddings == store.embeddings
        }),
{
    let after = db::without_document(store, id);
    table::lemma_filter_holds(store.documents, db::doc_lacks_id(id));
    table::lemma_filter_holds(store.chunks, db::chunk_of_other(id));
    table::lemma_filter_holds(store.edges, db::edge_of_other(id));
    table::lemma_filter_holds(store.nodes, db::node_outlasts(store.edges, id));
    table::lemma_first_from(after.documents, db::doc_has_id(id), 0);
    if let Some(i) = table::first_where(after.documents, db::doc_has_id(id)) {
        assert(db::doc_lacks_id(id)(after.documents[i]));
    }
    assert forall|i: int| 0 <= i < after.chunks.len() implies (#[trigger] after.chunks[i]).doc_id
        != id by {
        assert(db::chunk_of_other(id)(after.chunks[i]));
    }
    assert forall|i: int| 0 <= i < after.edges.len() implies (#[trigger] after.edges[i]).doc_id
        != id by {
        assert(db::edge_of_other(id)(after.edges[i]));
    }
    assert forall|i: int| 0 <= i < after.nodes.len() implies (#[trigger] after.nodes[i]).id
        != graph::doc_node_id(id) && (after.nodes[i].kind != graph::NodeKind::Document
        && after.nodes[i].doc_id is None ==> !db::is_orphaned(
        store.edges,
        id,
        after.nodes[i].id,
    )) by {
        assert(db::node_outlasts(store.edges, id)(after.nodes[i]));
    }
}

/// Deleting a document keeps every row of the other documents: their records,
/// chunks and edges, their own nodes, and the nodes of every kind that they link.
pub proof fn deleting_spares_other_documents(store: DbView, id: Seq<char>)
    ensures
        ({
            let after = db::without_document(store, id);
            &&& forall|d: DocumentView|
                d.id != id ==> (#[trigger] after.documents.contains(d)
                    == store.documents.contains(d))
            &&& forall|c: db::ChunkRowView|
                c.doc_id != id ==> (#[trigger] after.chunks.contains(c) == store.chunks.contains(c))
            &&& forall|e: graph::EdgeView|
                e.doc_id != id ==> (#[trigger] after.edges.contains(e) == store.edges.contains(e))
            &&& forall|n: graph::NodeView|
                n.id != graph::doc_node_id(id) && n.kind == graph::NodeKind::Document ==> (
                #[trigger] after.nodes.contains(n) == store.nodes.contains(n))
            &&& forall|n: graph::NodeView, e: graph::EdgeView|
                #![trigger after.nodes.contains(n), store.edges.contains(e)]
                store.edges.contains(e) && e.doc_id != id && (e.source == n.id || e.target == n.id)
                    && n.id != graph::doc_node_id(id) ==> after.nodes.contains(n)
                    == store.nodes.contains(n)
        }),
{
    let after = db::without_document(store, id);
    assert(after.nodes == db::without_graph(store, id).nodes);
    assert forall|n: graph::NodeView, e: graph::EdgeView|
        #![trigger after.nodes.contains(n), store.edges.contains(e)]
        store.edges.contains(e) && e.doc_id != id && (e.source == n.id || e.target == n.id) && n.id
            != graph::doc_node_id(id) implies after.nodes.contains(n) == store.nodes.contains(
        n,
    ) by {
        db::deleting_spares_linked_nodes(store, id, n);
    }
    table::lemma_filter_holds(store.documents, db::doc_lacks_id(id));
    table::lemma_filter_holds(store.chunks, db::chunk_of_other(id));
    table::lemma_filter_holds(store.edges, db::edge_of_other(id));
    table::lemma_filter_holds(store.nodes, db::node_outlasts(store.edges, id));
}

/// Deleting a document that was just added gives back the records, chunks and
/// edges of before.
pub proof fn deleting_undoes_adding(store: DbView, doc: DocumentView)
    requires
        forall|i: int|
            0 <= i < store.documents.len() ==> (#[trigger] store.documents[i]).id != doc.id,
        forall|i: int| 0 <= i < store.chunks.len() ==> (#[trigger] store.chunks[i]).doc_id != doc.id,
        forall|i: int| 0 <= i < store.edges.len() ==> (#[trigger] store.edges[i]).doc_id != doc.id,
    ensures
        ({
            let after = db::without_document(stored(store, doc), doc.id);
            &&& after.documents == store.documents
            &&& after.chunks == store.chunks
            &&& after.edges == store.edges
            &&& after.embeddings == store.embeddings
        }),
{
    let full = stored(store, doc);
    let body = document::body_of(doc.content);
    let lacks = db::doc_lacks_id(doc.id);
    table::lemma_filter_all(store.documents, lacks);
    table::lemma_filter_push(store.documents, doc, lacks);
    assert(full.documents == store.documents.push(doc));

    let chunks = chunk::chunks_of(doc.id, doc.title, body);
    let rows = Seq::new(chunks.len(), |i: int| db::chunk_row(chunks[i]));
    let other = db::chunk_of_other(doc.id);
    chunk::chunks_belong_to_the_document(doc.id, doc.title, body);
    table::lemma_filter_all(store.chunks, other);
    table::lemma_filter_none(rows, other);
    Seq::filter_distributes_over_add(store.chunks, rows, other);
    assert(store.chunks + Seq::<db::ChunkRowView>::empty() =~= store.chunks);

    let edges = graph::graph_edges(doc.id, doc.title, body);
    let foreign = db::edge_of_other(doc.id);
    assert forall|i: int| 0 <= i < edges.len() implies !foreign(#[trigger] edges[i]) by {
        graph::edges_join_nodes_of_the_graph(
            doc.id,
            doc.title,
            graph::links_of(body),
            graph::tags_of(body),
            graph::concepts_of(body),
            i,
        );
    }
    table::lemma_filter_all(store.edges, foreign);
    table::lemma_filter_none(edges, foreign);
    Seq::filter_distributes_over_add(store.edges, edges, foreign);
    assert(store.edges + Seq::<graph::EdgeView>::empty() =~= store.edges);
}

/// Fetching a page again that has not changed is a no-op.
pub proof fn refetching_is_a_no_op(
    store: DbView,
    url: Seq<char>,
    html: Seq<char>,
    fetched_at: Seq<char>,
    collection: Seq<char>,
    force: bool,
    now: Timestamp,
    fetched_later: Seq<char>,
    collection2: Seq<char>,
    later: Timestamp,
)
    requires
        is_valid(store),
        !fetched_at.contains('"'),
        !force && has_page(store, url, html) || !page_ingested(
            store,
            url,
            html,
            fetched_at,
            collection,
            force,
            now,
        ).2,
    ensures
        ({
            let (after, id, skipped) = page_ingested(
                store,
                url,
                html,
                fetched_at,
                collection,
                force,
                now,
            );
            page_ingested(after, url, html, fetched_later, collection2, false, later) == (
                after,
                id,
                true,
            )
        }),
{
    let title = fetch::stored_title(url, html);
    let body = fetch::page_text(html);
    let raw = fetch::page_document(title, url, fetched_at, body);
    let (after, id, skipped) = page_ingested(store, url, html, fetched_at, collection, force, now);
    if !skipped {
        let doc = document_for(raw, url, collection, url, now);
        let base = without_path(store, url);
        lemma_path_is_free(store, url);
        let kept = base.documents.filter(db::doc_lacks_id(doc.id));
        table::lemma_filter_holds(base.documents, db::doc_lacks_id(doc.id));
        assert(after.documents == kept.push(doc));
        let p = db::doc_has_path(url);
        assert forall|j: int| 0 <= j < kept.len() implies !p(#[trigger] after.documents[j]) by {
            assert(kept.contains(kept[j]));
            let k = choose|k: int| 0 <= k < base.documents.len() && base.documents[k] == kept[j];
            assert(base.documents[k].path != url);
        }
        table::lemma_is_first(after.documents, p, kept.len() as int);
        assert(fetch::is_version_of(doc.content, title, url, body));
    }
}

/// A document that was added is indexed and in the graph: the index holds a row
/// for each of its chunks, and the graph its own node and each of its edges.
pub proof fn added_document_is_indexed(store: DbView, doc: DocumentView)
    requires
        table::pairwise(store.nodes, db::nodes_differ()),
    ensures
        ({
            let after = stored(store, doc);
            let body = document::body_of(doc.content);
            let chunks = chunk::chunks_of(doc.id, doc.title, body);
            let edges = graph::graph_edges(doc.id, doc.title, body);
            &&& forall|i: int|
                0 <= i < chunks.len() ==> after.chunks.contains(
                    db::chunk_row(#[trigger] chunks[i]),
                )
            &&& forall|i: int|
                0 <= i < edges.len() ==> after.edges.contains(#[trigger] edges[i])
            &&& traverse::has_node(after, graph::doc_node_id(doc.id))
            &&& table::pairwise(after.nodes, db::nodes_differ())
        }),
{
    let after = stored(store, doc);
    let body = document::body_of(doc.content);
    let chunks = chunk::chunks_of(doc.id, doc.title, body);
    let edges = graph::graph_edges(doc.id, doc.title, body);
    let nodes = graph::graph_nodes(doc.id, doc.title, body);
    assert forall|i: int| 0 <= i < chunks.len() implies after.chunks.contains(
        db::chunk_row(#[trigger] chunks[i]),
    ) by {
        assert(after.chunks[store.chunks.len() + i] == db::chunk_row(chunks[i]));
    }
    assert forall|i: int| 0 <= i < edges.len() implies after.edges.contains(
        #[trigger] edges[i],
    ) by {
        assert(after.edges[store.edges.len() + i] == edges[i]);
    }
    db::graph_nodes_are_known(store.nodes, nodes, nodes.len() as int);
    assert(nodes[0] == graph::doc_node(doc.id, doc.title));
    db::lemma_known_node(after.nodes, graph::doc_node_id(doc.id));
}

/// Whether a document is the record of a text: identified by the text's hash, with the
/// text as its content and what the text says of itself as its title and frontmatter.
pub open spec fn is_record_of(
    doc: DocumentView,
    raw: Seq<char>,
    path: Seq<char>,
    collection: Seq<char>,
    fallback: Seq<char>,
    now: Timestamp,
) -> bool {
    &&& doc.content == raw
    &&& doc.path == path
    &&& doc.collection == collection
    &&& doc.added_at == now
    &&& doc.content_hash == document::content_hash_of(raw)
    &&& doc.id == doc.content_hash.take(document::ID_LEN as int)
    &&& doc.frontmatter == document::frontmatter_of(raw)
    &&& document::is_title(doc.frontmatter, raw, fallback, doc.title)
}

/// Whether a text is stored: a document has its hash.
pub open spec fn is_known(store: DbView, raw: Seq<char>) -> bool {
    exists|i: int|
        0 <= i < store.documents.len() && (#[trigger] store.documents[i]).content_hash
            == document::content_hash_of(raw)
}

/// A text that is not stored yet, or is added by force, is stored as a record of its
/// own, under its path and in its collection; any other is skipped, and the documents
/// are those stored before, but for an outdated one at the path.
pub proof fn new_texts_are_stored_and_known_ones_skipped(
    store: DbView,
    raw: Seq<char>,
    path: Seq<char>,
    collection: Seq<char>,
    fallback: Seq<char>,
    force: bool,
    now: Timestamp,
)
    ensures
        ({
            let (after, id, skipped) = ingested(
                store,
                raw,
                path,
                collection,
                fallback,
                force,
                now,
            );
            &&& skipped <==> !force && is_known(store, raw)
            &&& !skipped ==> after.documents.len() > 0 && is_record_of(
                after.documents.last(),
                raw,
                path,
                collection,
                fallback,
                now,
            ) && id == after.documents.last().id
            &&& skipped ==> exists|i: int|
                0 <= i < store.documents.len() && (#[trigger] store.documents[i]).id == id
                    && store.documents[i].content_hash == document::content_hash_of(raw)
            &&& skipped ==> forall|d: DocumentView| #[trigger]
                after.documents.contains(d) ==> store.documents.contains(d)
        }),
{
    let (after, id, skipped) = ingested(store, raw, path, collection, fallback, force, now);
    let hash = document::content_hash_of(raw);
    let p = db::doc_has_hash(hash);
    table::lemma_first_from(store.documents, p, 0);
    if is_known(store, raw) {
        let i = choose|i: int|
            0 <= i < store.documents.len() && (#[trigger] store.documents[i]).content_hash == hash;
        assert(p(store.documents[i]));
    }
    if let Some(k) = table::first_where(store.documents, p) {
        assert(store.documents[k].content_hash == hash);
    }
    document::titles_come_from_the_text(document::frontmatter_of(raw), raw, fallback);
    if skipped {
        if let Some(o) = outdated_at(store, path, raw) {
            table::lemma_filter_holds(
                store.documents,
                db::doc_lacks_id(store.documents[o].id),
            );
        }
    }
}

/// Adding a document appends to the index a row for each part of its body and to the
/// edges those of its graph, and changes no row that was there.
pub proof fn adding_appends_what_the_text_holds(store: DbView, doc: DocumentView)
    ensures
        ({
            let after = stored(store, doc);
            let body = document::body_of(doc.content);
            let parts = chunk::chunks_of(doc.id, doc.title, body);
            let edges = graph::graph_edges(doc.id, doc.title, body);
            let n = store.chunks.len() as int;
            let m = store.edges.len() as int;
            &&& chunk::are_chunks(body, parts)
            &&& after.chunks.len() == n + parts.len()
            &&& after.chunks.take(n) == store.chunks
            &&& forall|i: int|
                0 <= i < parts.len() ==> {
                    let row = after.chunks[n + i];
                    &&& row.doc_id == doc.id
                    &&& row.title == doc.title
                    &&& row.content == (#[trigger] parts[i]).content
                }
            &&& after.edges.take(m) == store.edges
            &&& after.edges.skip(m) == edges
            &&& after.embeddings == store.embeddings
        }),
{
    let after = stored(store, doc);
    let body = document::body_of(doc.content);
    let parts = chunk::chunks_of(doc.id, doc.title, body);
    let n = store.chunks.len() as int;
    let m = store.edges.len() as int;
    chunk::chunks_are_the_parts_of_the_body(doc.id, doc.title, body);
    assert(after.chunks.take(n) =~= store.chunks);
    assert(after.edges.take(m) =~= store.edges);
    assert(after.edges.skip(m) =~= graph::graph_edges(doc.id, doc.title, body));
    assert forall|i: int| 0 <= i < parts.len() implies {
        let row = after.chunks[n + i];
        &&& row.doc_id == doc.id
        &&& row.title == doc.title
        &&& row.content == (#[trigger] parts[i]).content
    } by {
        chunk::chunks_belong_to_the_document(doc.id, doc.title, body);
    }
}

/// A page is stored under its address as a document of its title and text, unless the
/// document at its address is of the same title and text, whenever that was fetched; by
/// force it is stored in any case.
pub proof fn pages_are_stored_under_their_address(
    store: DbView,
    url: Seq<char>,
    html: Seq<char>,
    fetched_at: Seq<char>,
    collection: Seq<char>,
    force: bool,
    now: Timestamp,
)
    requires
        is_valid(store),
    ensures
        ({
            let title = fetch::stored_title(url, html);
            let body = fetch::page_text(html);
            let page = fetch::page_document(title, url, fetched_at, body);
            let (after, id, skipped) = page_ingested(
                store,
                url,
                html,
                fetched_at,
                collection,
                force,
                now,
            );
            let is_stored = exists|i: int|
                0 <= i < store.documents.len() && (#[trigger] store.documents[i]).path == url
                    && fetch::is_version_of(store.documents[i].content, title, url, body);
            &&& skipped <==> !force && (is_stored || is_known(store, page))
            &&& !force && is_stored ==> after == store
            &&& !skipped ==> after.documents.len() > 0 && is_record_of(
                after.documents.last(),
                page,
                url,
                collection,
                url,
                now,
            ) && id == after.documents.last().id
        }),
{
    let title = fetch::stored_title(url, html);
    let body = fetch::page_text(html);
    let page = fetch::page_document(title, url, fetched_at, body);
    let docs = store.documents;
    let p = db::doc_has_path(url);
    table::lemma_first_from(docs, p, 0);
    new_texts_are_stored_and_known_ones_skipped(store, page, url, collection, url, force, now);
    let is_stored = exists|i: int|
        0 <= i < docs.len() && (#[trigger] docs[i]).path == url && fetch::is_version_of(
            docs[i].content,
            title,
            url,
            body,
        );
    if is_stored {
        let i = choose|i: int|
            0 <= i < docs.len() && (#[trigger] docs[i]).path == url && fetch::is_version_of(
                docs[i].content,
                title,
                url,
                body,
            );
        assert(p(docs[i]));
        let k = table::first_where(docs, p).unwrap();
        if k < i {
            assert(paths_differ()(docs[k], docs[i]));
        }
    }
    if let Some(k) = table::first_where(docs, p) {
        assert(docs[k].path == url);
    }
    assert(has_page(store, url, html) == is_stored);
}

} // verus!
