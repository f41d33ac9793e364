//! Watch mode: what is done when a file changes.

use vstd::prelude::*;

use crate::db;
use crate::db::{Db, DbView};
use crate::document::DocumentView;
use crate::ingest;
use crate::table;
use crate::text;

verus! {

/// What happened to a file, as far as it matters here.
#[derive(Debug, Clone, Copy, PartialEq, Eq, Structural)]
pub enum EventKind {
    /// A file, or something of unknown kind, was created
    Created,
    /// Data, or something of unknown kind, was modified
    Modified,
    /// A file, or something of unknown kind, was removed
    Removed,
    /// Anything else: directories, names, permissions, mere access
    Other,
}

/// What is done about a changed file.
#[derive(Debug, Clone, Copy, PartialEq, Eq, Structural)]
pub enum WatchAction {
    Ingest,
    Remove,
    Ignore,
}

/// Whether an extension is that of markdown files.
pub fn is_markdown(extension: Option<&str>) -> (r: bool)
    ensures
        r == (extension matches Some(e) && e@ == "md"@),
{
    match extension {
        Some(e) => text::same(e, "md"),
        None => false,
    }
}

/// What is done about a file with the given extension: markdown files are
/// ingested when they are created or modified and still exist, and removed when
/// they are removed.
pub open spec fn action_for(
    kind: EventKind,
    extension: Option<Seq<char>>,
    exists: bool,
) -> WatchAction {
    if extension != Some("md"@) {
        WatchAction::Ignore
    } else if (kind == EventKind::Created || kind == EventKind::Modified) && exists {
        WatchAction::Ingest
    } else if kind == EventKind::Removed {
        WatchAction::Remove
    } else {
        WatchAction::Ignore
    }
}

/// What is done about a changed file.
pub fn handle_event(kind: EventKind, extension: Option<&str>, exists: bool) -> (r: WatchAction)
    ensures
        r == action_for(kind, db::opt_str(extension), exists),
        r == WatchAction::Ingest <==> (extension matches Some(e) && e@ == "md"@) && kind
            != EventKind::Removed && kind != EventKind::Other && exists,
        r == WatchAction::Remove <==> (extension matches Some(e) && e@ == "md"@) && kind
            == EventKind::Removed,
{
    let is_write: bool = kind == EventKind::Created || kind == EventKind::Modified;
    if !is_markdown(extension) {
        WatchAction::Ignore
    } else if is_write && exists {
        WatchAction::Ingest
    } else if kind == EventKind::Removed {
        WatchAction::Remove
    } else {
        WatchAction::Ignore
    }
}

/// Removes the document of a removed file. Returns whether there was one.
pub fn remove_path(store: &mut Db, path: &str) -> (r: bool)
    ensures
        match table::first_where(old(store)@.documents, db::doc_has_path(path@)) {
            Some(i) => r && final(store)@ == db::without_document(
                old(store)@,
                old(store)@.documents[i].id,
            ),
            None => !r && final(store)@ == old(store)@,
        },
        r <==> exists|i: int|
            0 <= i < old(store)@.documents.len() && (#[trigger] old(store)@.documents[i]).path
                == path@,
{
    proof {
        lemma_path_known(store@, path@);
    }
    match store.find_by_path(path) {
        Some(id) => {
            proof {
                let docs = store@.documents;
                table::lemma_first_from(docs, db::doc_has_path(path@), 0);
                let i = table::first_where(docs, db::doc_has_path(path@)).unwrap();
                let same = db::doc_has_id(docs[i].id);
                table::lemma_first_from(docs, same, 0);
                assert(same(docs[i]));
            }
            store.delete_document(id.as_str()).is_ok()
        },
        None => false,
    }
}

proof fn lemma_path_known(store: DbView, path: Seq<char>)
    ensures
        table::first_where(store.documents, db::doc_has_path(path)) is Some <==> exists|i: int|
            0 <= i < store.documents.len() && (#[trigger] store.documents[i]).path == path,
{
    let p = db::doc_has_path(path);
    table::lemma_first_from(store.documents, p, 0);
    if exists|i: int| 0 <= i < store.documents.len() && (#[trigger] store.documents[i]).path == path {
        let i = choose|i: int|
            0 <= i < store.documents.len() && (#[trigger] store.documents[i]).path == path;
        assert(p(store.documents[i]));
    }
    if let Some(k) = table::first_where(store.documents, p) {
        assert(store.documents[k].path == path);
    }
}

/// Once the document of a removed file is deleted, the documents are those at other paths.
pub proof fn removed_files_leave_the_others(store: DbView, i: int, d: DocumentView)
    requires
        ingest::is_valid(store),
        0 <= i < store.documents.len(),
    ensures
        ({
            let after = db::without_document(store, store.documents[i].id);
            after.documents.contains(d) <==> store.documents.contains(d) && d.path
                != store.documents[i].path
        }),
{
    let docs = store.documents;
    let gone = docs[i];
    let after = db::without_document(store, gone.id);
    table::lemma_filter_holds(docs, db::doc_lacks_id(gone.id));
    assert(after.documents.contains(d) <==> docs.contains(d) && db::doc_lacks_id(gone.id)(d));
    if docs.contains(d) {
        let k = choose|k: int| 0 <= k < docs.len() && docs[k] == d;
        if k < i {
            assert(ingest::ids_differ()(docs[k], docs[i]));
            assert(ingest::paths_differ()(docs[k], docs[i]));
        } else if i < k {
            assert(ingest::ids_differ()(docs[i], docs[k]));
            assert(ingest::paths_differ()(docs[i], docs[k]));
        }
    }
}

} // verus!
