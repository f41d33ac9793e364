//! A plain store of documents beside a full-text index: one record per
//! identifier, searched by what the index finds.

use vstd::prelude::*;

use crate::db;
use crate::document;
use crate::document::{FieldView, Frontmatter, Timestamp};
use crate::error::{MksError, MksResult};
use crate::graph;
use crate::order;
use crate::table;
use crate::text;

verus! {

/// A document of the store.
#[derive(Debug)]
pub struct StoredDocument {
    pub id: String,
    pub collection: String,
    pub title: String,
    pub content: String,
    pub source_path: String,
    pub added_at: Timestamp,
    pub frontmatter: Frontmatter,
}

/// What a document of the store holds.
pub struct StoredView {
    pub id: Seq<char>,
    pub collection: Seq<char>,
    pub title: Seq<char>,
    pub content: Seq<char>,
    pub source_path: Seq<char>,
    pub added_at: Timestamp,
    pub frontmatter: Seq<FieldView>,
}

impl View for StoredDocument {
    type V = StoredView;

    open spec fn view(&self) -> StoredView {
        StoredView {
            id: self.id@,
            collection: self.collection@,
            title: self.title@,
            content: self.content@,
            source_path: self.source_path@,
            added_at: self.added_at,
            frontmatter: self.frontmatter@,
        }
    }
}

impl Clone for StoredDocument {
    fn clone(&self) -> (r: Self)
        ensures
            r@ == self@,
    {
        StoredDocument {
            id: self.id.clone(),
            collection: self.collection.clone(),
            title: self.title.clone(),
            content: self.content.clone(),
            source_path: self.source_path.clone(),
            added_at: self.added_at,
            frontmatter: self.frontmatter.clone(),
        }
    }
}

/// The records of the store, in the order in which they are read.
#[derive(Debug)]
pub struct Store {
    pub documents: Vec<StoredDocument>,
}

impl View for Store {
    type V = Seq<StoredView>;

    open spec fn view(&self) -> Seq<StoredView> {
        table::rows(self.documents@)
    }
}

/// Counts of the store, in all and by collection.
#[derive(Debug)]
pub struct Stats {
    pub total: usize,
    pub by_collection: Vec<(String, usize)>,
}

/// Records with the identifier.
pub open spec fn stored_as(id: Seq<char>) -> spec_fn(StoredView) -> bool {
    |d: StoredView| d.id == id
}

/// Records with another identifier.
pub open spec fn stored_beside(id: Seq<char>) -> spec_fn(StoredView) -> bool {
    |d: StoredView| d.id != id
}

/// Records of the collection; all of them where none is given.
pub open spec fn stored_in(collection: Option<Seq<char>>) -> spec_fn(StoredView) -> bool {
    |d: StoredView|
        match collection {
            Some(c) => d.collection == c,
            None => true,
        }
}

/// The record that a text is stored as. Its title is the frontmatter's, or else
/// the first heading of its body, or else the name of its file.
pub open spec fn record_for(
    id: Seq<char>,
    content: Seq<char>,
    source_path: Seq<char>,
    stem: Seq<char>,
    collection: Seq<char>,
    now: Timestamp,
) -> StoredView {
    let fields = document::frontmatter_of(content);
    StoredView {
        id,
        collection,
        title: document::title_of(fields, document::body_of(content), stem),
        content,
        source_path,
        added_at: now,
        frontmatter: fields,
    }
}

/// When the records were added.
pub open spec fn stored_instants(docs: Seq<StoredView>) -> Seq<int> {
    Seq::new(docs.len(), |i: int| document::instant(docs[i].added_at))
}

/// The first `limit` records of a collection, the newest first.
pub open spec fn listed(docs: Seq<StoredView>, collection: Option<Seq<char>>, limit: int) -> Seq<
    StoredView,
> {
    let chosen = db::limited(docs.filter(stored_in(collection)), limit);
    order::sorted_desc(chosen, stored_instants(chosen))
}

/// The records of the first `n` identifiers that are in the collection.
pub open spec fn hits(
    docs: Seq<StoredView>,
    ids: Seq<Seq<char>>,
    collection: Option<Seq<char>>,
    n: int,
) -> Seq<StoredView>
    decreases n,
{
    if n <= 0 {
        Seq::empty()
    } else {
        let before = hits(docs, ids, collection, n - 1);
        match table::first_where(docs, stored_as(ids[n - 1])) {
            Some(i) => if stored_in(collection)(docs[i]) {
                before.push(docs[i])
            } else {
                before
            },
            None => before,
        }
    }
}

/// Whether the first `n` identifiers are all stored.
pub open spec fn all_stored(docs: Seq<StoredView>, ids: Seq<Seq<char>>, n: int) -> bool {
    forall|k: int|
        0 <= k < n ==> table::first_where(docs, stored_as(#[trigger] ids[k])) is Some
}

/// How many identifiers are looked at before enough records are found: as few
/// as give `limit` records, at least one, or all of them. `n` are not enough.
pub open spec fn looked_at(
    docs: Seq<StoredView>,
    ids: Seq<Seq<char>>,
    collection: Option<Seq<char>>,
    limit: int,
    n: int,
) -> int
    decreases ids.len() - n,
{
    if n >= ids.len() {
        ids.len() as int
    } else if hits(docs, ids, collection, n + 1).len() > hits(docs, ids, collection, n).len()
        && hits(docs, ids, collection, n + 1).len() >= limit {
        n + 1
    } else {
        looked_at(docs, ids, collection, limit, n + 1)
    }
}

/// The collections of the records.
pub open spec fn stored_collections(docs: Seq<StoredView>) -> Seq<Seq<char>> {
    Seq::new(docs.len(), |i: int| docs[i].collection)
}

/// Each collection with the number of its records.
pub open spec fn stored_counts(docs: Seq<StoredView>) -> Seq<(Seq<char>, int)> {
    let names = table::distinct(stored_collections(docs));
    Seq::new(
        names.len(),
        |i: int| (names[i], table::count_where(docs, stored_in(Some(names[i]))) as int),
    )
}

impl Store {
    /// A new store.
    pub fn init() -> (r: Self)
        ensures
            r@ == Seq::<StoredView>::empty(),
    {
        let r = Store { documents: Vec::new() };
        assert(r@ =~= Seq::empty());
        r
    }

    /// Opens a store with the records found at `root`. Fails with
    /// `NotInitialized` where nothing was found.
    pub fn open(found: Option<Vec<StoredDocument>>, root: &str) -> (r: MksResult<Self>)
        ensures
            match found {
                Some(docs) => r matches Ok(store) && store@ == table::rows(docs@),
                None => r matches Err(MksError::NotInitialized(p)) && p@ == root@,
            },
    {
        match found {
            Some(documents) => Ok(Store { documents }),
            None => Err(MksError::NotInitialized(root.to_owned())),
        }
    }

    /// Adds a markdown document to the store under `id`, in place of the record
    /// with that identifier. `stem` is the name of its file.
    pub fn add(
        &mut self,
        id: &str,
        content: &str,
        source_path: &str,
        stem: &str,
        collection: &str,
        now: Timestamp,
    ) -> (r: StoredDocument)
        ensures
            r@ == record_for(id@, content@, source_path@, stem@, collection@, now),
            r@.id == id@ && r@.content == content@ && r@.source_path == source_path@,
            r@.collection == collection@ && r@.added_at == now,
            document::is_title(
                document::frontmatter_of(content@),
                document::body_of(content@),
                stem@,
                r@.title,
            ),
            final(self)@ == old(self)@.filter(stored_beside(id@)).push(r@),
    {
        let (fields, body) = document::parse_frontmatter(content);
        let title = document::choose_title(&fields, body, stem);
        let doc = StoredDocument {
            id: id.to_owned(),
            collection: collection.to_owned(),
            title,
            content: content.to_owned(),
            source_path: source_path.to_owned(),
            added_at: now,
            frontmatter: fields,
        };
        let test = |d: &StoredDocument| -> (b: bool)
            ensures
                b == (d@.id != id@),
            { !text::same(d.id.as_str(), id) };
        table::keep_rows(&mut self.documents, test, Ghost(stored_beside(id@)));
        let ghost kept = self.documents@;
        self.documents.push(doc.clone());
        assert(table::rows(self.documents@) =~= table::rows(kept).push(doc@));
        doc
    }

    /// The place of the record with the identifier.
    fn load_by_id(&self, id: &str) -> (r: Option<usize>)
        ensures
            match (r, table::first_where(self@, stored_as(id@))) {
                (Some(a), Some(b)) => a == b && a < self.documents@.len(),
                (None, None) => true,
                _ => false,
            },
    {
        let test = |d: &StoredDocument| -> (b: bool)
            ensures
                b == (d@.id == id@),
            { text::same(d.id.as_str(), id) };
        table::find_row(&self.documents, test, Ghost(stored_as(id@)))
    }

    /// Whether a record is in the collection.
    fn is_in(doc: &StoredDocument, collection: Option<&str>) -> (r: bool)
        ensures
            r == stored_in(db::opt_str(collection))(doc@),
    {
        match collection {
            Some(c) => text::same(doc.collection.as_str(), c),
            None => true,
        }
    }

    /// Full-text search, given the identifiers that the index found, best first.
    /// Returns matching documents ordered by relevance. Fails with `NotFound`
    /// where the index names a document that is not stored.
    pub fn search(&self, ids: &Vec<String>, limit: usize, collection: Option<&str>) -> (r: MksResult<
        Vec<StoredDocument>,
    >)
        ensures
            ({
                let names = table::rows(ids@);
                let col = db::opt_str(collection);
                let n = looked_at(self@, names, col, limit as int, 0);
                match r {
                    Ok(docs) => all_stored(self@, names, n) && table::rows(docs@) == hits(
                        self@,
                        names,
                        col,
                        n,
                    ),
                    Err(e) => {
                        &&& e matches MksError::NotFound(id)
                        &&& exists|k: int|
                            0 <= k < n && #[trigger] names[k] == id@ && table::first_where(
                                self@,
                                stored_as(names[k]),
                            ) is None && all_stored(self@, names, k)
                    },
                }
            }),
            r matches Ok(docs) ==> are_hits(
                self@,
                table::rows(ids@),
                db::opt_str(collection),
                limit as int,
                table::rows(docs@),
            ),
    {
        let ghost names = table::rows(ids@);
        let ghost col = db::opt_str(collection);
        let ghost all = looked_at(self@, names, col, limit as int, 0);
        proof {
            searches_return_the_best_records(self@, names, col, limit as int);
        }
        let n: usize = ids.len();
        let mut out: Vec<StoredDocument> = Vec::new();
        let mut i: usize = 0;
        let mut enough: bool = false;
        assert(table::rows(out@) =~= Seq::empty());
        while i < n && !enough
            invariant
                i <= n == ids@.len(),
                names == table::rows(ids@),
                col == db::opt_str(collection),
                all == looked_at(self@, names, col, limit as int, 0),
                table::rows(out@) == hits(self@, names, col, i as int),
                all_stored(self@, names, i as int),
                !enough ==> all == looked_at(self@, names, col, limit as int, i as int),
                enough ==> all == i,
            decreases n - i,
        {
            let id = ids[i].as_str();
            assert(names[i as int] == id@);
            match self.load_by_id(id) {
                None => {
                    proof {
                        lemma_looks_on(self@, names, col, limit as int, i as int);
                    }
                    return Err(MksError::NotFound(id.to_owned()));
                },
                Some(at) => {
                    if Self::is_in(&self.documents[at], collection) {
                        let ghost had = out@;
                        out.push(self.documents[at].clone());
                        assert(table::rows(out@) =~= table::rows(had).push(self@[at as int]));
                        if out.len() >= limit {
                            enough = true;
                        }
                    }
                },
            }
            i += 1;
        }
        Ok(out)
    }

    /// Retrieves a document by ID.
    pub fn get(&self, id: &str) -> (r: MksResult<StoredDocument>)
        ensures
            match table::first_where(self@, stored_as(id@)) {
                Some(i) => r matches Ok(doc) && doc@ == self@[i],
                None => r matches Err(MksError::NotFound(e)) && e@ == id@,
            },
    {
        match self.load_by_id(id) {
            Some(i) => Ok(self.documents[i].clone()),
            None => Err(MksError::NotFound(id.to_owned())),
        }
    }

    /// Lists documents in the order in which they are read, optionally filtered
    /// by collection, up to `limit`, and returns them the newest first.
    pub fn list(&self, collection: Option<&str>, limit: usize) -> (r: Vec<StoredDocument>)
        ensures
            table::rows(r@) == listed(self@, db::opt_str(collection), limit as int),
            is_list(self@, db::opt_str(collection), limit as int, table::rows(r@)),
    {
        proof {
            listings_hold_the_collection(self@, db::opt_str(collection), limit as int);
        }
        let ghost chosen = stored_in(db::opt_str(collection));
        let test = |d: &StoredDocument| -> (b: bool)
            ensures
                b == chosen(d@),
            { Self::is_in(d, collection) };
        let selected = table::select_rows(&self.documents, test, Ghost(chosen));
        let n: usize = if selected.len() <= limit {
            selected.len()
        } else {
            limit
        };
        let ghost docs = db::limited(self@.filter(chosen), limit as int);
        assert(docs =~= Seq::new(n as nat, |k: int| self@[selected@[k] as int])) by {
            assert forall|k: int| 0 <= k < n implies self@.filter(chosen)[k]
                == self@[selected@[k] as int] by {
                let picked = Seq::new(selected@.len(), |k: int| self@[selected@[k] as int]);
                assert(picked[k] == self@[selected@[k] as int]);
            }
        }
        let mut keys: Vec<i128> = Vec::new();
        let mut i: usize = 0;
        while i < n
            invariant
                i <= n == docs.len(),
                n <= selected@.len(),
                forall|k: int|
                    0 <= k < selected@.len() ==> (#[trigger] selected@[k]) < self.documents@.len(),
                docs == Seq::new(n as nat, |k: int| self@[selected@[k] as int]),
                keys@.len() == i,
                forall|k: int| 0 <= k < i ==> (#[trigger] keys@[k]) == stored_instants(docs)[k],
            decreases n - i,
        {
            keys.push(self.documents[selected[i]].added_at.instant());
            i += 1;
        }
        assert(order::key_ints(keys@) =~= stored_instants(docs));
        let sorted = order::order_desc(&keys);
        let ghost full = order::sorted_desc(docs, stored_instants(docs));
        let mut out: Vec<StoredDocument> = Vec::new();
        let mut k: usize = 0;
        assert(table::rows(out@) =~= full.take(0));
        while k < n
            invariant
                k <= n == docs.len() == sorted@.len() == full.len(),
                n <= selected@.len(),
                forall|j: int|
                    0 <= j < selected@.len() ==> (#[trigger] selected@[j]) < self.documents@.len(),
                docs == Seq::new(n as nat, |j: int| self@[selected@[j] as int]),
                order::covers(order::ints(sorted@), 0, n as int),
                full == order::arranged(docs, order::ints(sorted@)),
                table::rows(out@) == full.take(k as int),
            decreases n - k,
        {
            let ghost had = out@;
            assert(0 <= order::ints(sorted@)[k as int] < n);
            let at: usize = sorted[k];
            out.push(self.documents[selected[at]].clone());
            assert(table::rows(out@) =~= table::rows(had).push(full[k as int]));
            k += 1;
            assert(full.take(k as int) =~= full.take(k - 1).push(full[k - 1]));
        }
        assert(full.take(n as int) =~= full);
        out
    }

    /// Removes a document by ID.
    pub fn remove(&mut self, id: &str) -> (r: MksResult<()>)
        ensures
            match table::first_where(old(self)@, stored_as(id@)) {
                Some(i) => r is Ok && final(self)@ == old(self)@.filter(stored_beside(id@)),
                None => (r matches Err(MksError::NotFound(e)) && e@ == id@) && final(self)@ == old(
                    self,
                )@,
            },
    {
        if self.load_by_id(id).is_none() {
            return Err(MksError::NotFound(id.to_owned()));
        }
        let test = |d: &StoredDocument| -> (b: bool)
            ensures
                b == (d@.id != id@),
            { !text::same(d.id.as_str(), id) };
        table::keep_rows(&mut self.documents, test, Ghost(stored_beside(id@)));
        Ok(())
    }

    /// Counts total documents and by collection.
    pub fn stats(&self) -> (r: Stats)
        ensures
            r.total == self@.len(),
            db::count_views(r.by_collection@) == stored_counts(self@),
            are_counts(self@, db::count_views(r.by_collection@)),
    {
        proof {
            statistics_count_the_collections(self@);
        }
        let ghost all = stored_collections(self@);
        let n: usize = self.documents.len();
        let mut names: Vec<String> = Vec::new();
        let mut i: usize = 0;
        assert(all.take(0) =~= Seq::empty());
        assert(table::rows(names@) =~= table::distinct(all.take(0)));
        while i < n
            invariant
                i <= n == self.documents@.len(),
                all == stored_collections(self@),
                table::rows(names@) == table::distinct(all.take(i as int)),
            decreases n - i,
        {
            let ghost had = names@;
            let ghost longer = all.take(i + 1);
            assert(longer.drop_last() =~= all.take(i as int));
            assert(longer.last() == self.documents@[i as int].collection@);
            proof {
                table::lemma_distinct(all.take(i as int));
            }
            let name = self.documents[i].collection.as_str();
            if !graph::contains_string(&names, name) {
                names.push(self.documents[i].collection.clone());
                assert(table::rows(names@) =~= table::rows(had).push(longer.last()));
            }
            i += 1;
        }
        assert(all.take(n as int) =~= all);
        let ghost counts = stored_counts(self@);
        let m: usize = names.len();
        let mut by_collection: Vec<(String, usize)> = Vec::new();
        let mut j: usize = 0;
        assert(db::count_views(by_collection@) =~= counts.take(0));
        while j < m
            invariant
                j <= m == names@.len() == counts.len(),
                counts == stored_counts(self@),
                table::rows(names@) == table::distinct(stored_collections(self@)),
                db::count_views(by_collection@) == counts.take(j as int),
            decreases m - j,
        {
            let ghost had = by_collection@;
            let name = names[j].as_str();
            let ghost inside = stored_in(Some(name@));
            let test = |d: &StoredDocument| -> (b: bool)
                ensures
                    b == inside(d@),
                { text::same(d.collection.as_str(), name) };
            let count: usize = table::count_rows(&self.documents, test, Ghost(inside));
            assert(table::rows(names@)[j as int] == name@);
            by_collection.push((names[j].clone(), count));
            assert(db::count_views(by_collection@) =~= db::count_views(had).push(counts[j as int]));
            j += 1;
            assert(counts.take(j as int) =~= counts.take(j - 1).push(counts[j - 1]));
        }
        assert(counts.take(m as int) =~= counts);
        Stats { total: n, by_collection }
    }
}

/// At least one more identifier is looked at while there are any.
proof fn lemma_looks_on(
    docs: Seq<StoredView>,
    ids: Seq<Seq<char>>,
    collection: Option<Seq<char>>,
    limit: int,
    n: int,
)
    requires
        0 <= n < ids.len(),
    ensures
        looked_at(docs, ids, collection, limit, n) > n,
    decreases ids.len() - n,
{
    reveal_with_fuel(looked_at, 2);
    if n + 1 < ids.len() {
        lemma_looks_on(docs, ids, collection, limit, n + 1);
    }
}

// ---------------------------------------------------------------------------
// Laws
// ---------------------------------------------------------------------------

/// A record that was added is read back, and is the only one with its identifier.
pub proof fn added_record_is_read_back(docs: Seq<StoredView>, doc: StoredView)
    ensures
        ({
            let after = docs.filter(stored_beside(doc.id)).push(doc);
            let found = table::first_where(after, stored_as(doc.id));
            &&& found is Some
            &&& after[found.unwrap()] == doc
            &&& after.filter(stored_as(doc.id)) == seq![doc]
        }),
{
    let kept = docs.filter(stored_beside(doc.id));
    let after = kept.push(doc);
    let p = stored_as(doc.id);
    table::lemma_filter_holds(docs, stored_beside(doc.id));
    assert forall|j: int| 0 <= j < kept.len() implies !p(#[trigger] after[j]) by {
        assert(stored_beside(doc.id)(kept[j]));
    }
    table::lemma_is_first(after, p, kept.len() as int);
    assert forall|j: int| 0 <= j < kept.len() implies !p(#[trigger] kept[j]) by {
        assert(after[j] == kept[j]);
    }
    table::lemma_filter_none(kept, p);
    table::lemma_filter_push(kept, doc, p);
    assert(Seq::<StoredView>::empty().push(doc) =~= seq![doc]);
}

/// A record that was removed is gone, and the others are still there.
pub proof fn removed_record_is_gone(docs: Seq<StoredView>, id: Seq<char>)
    ensures
        ({
            let after = docs.filter(stored_beside(id));
            &&& table::first_where(after, stored_as(id)) is None
            &&& forall|d: StoredView|
                d.id != id ==> (#[trigger] after.contains(d) == docs.contains(d))
        }),
{
    let after = docs.filter(stored_beside(id));
    table::lemma_filter_holds(docs, stored_beside(id));
    table::lemma_first_from(after, stored_as(id), 0);
    if let Some(i) = table::first_where(after, stored_as(id)) {
        assert(stored_beside(id)(after[i]));
    }
}

/// Whether a record is stored, in the collection if one is given.
pub open spec fn is_kept_in(
    docs: Seq<StoredView>,
    collection: Option<Seq<char>>,
    d: StoredView,
) -> bool {
    docs.contains(d) && (collection is Some ==> d.collection == collection.unwrap())
}

/// Whether `found` are records of a collection, newest first and at most `limit` of
/// them; none is left out unless there is no room.
pub open spec fn is_list(
    docs: Seq<StoredView>,
    collection: Option<Seq<char>>,
    limit: int,
    found: Seq<StoredView>,
) -> bool {
    &&& found.len() <= limit
    &&& forall|i: int| 0 <= i < found.len() ==> is_kept_in(docs, collection, #[trigger] found[i])
    &&& forall|i: int, j: int|
        0 <= i < j < found.len() ==> document::instant((#[trigger] found[i]).added_at)
            >= document::instant((#[trigger] found[j]).added_at)
    &&& forall|d: StoredView| #[trigger]
        is_kept_in(docs, collection, d) && !found.contains(d) ==> found.len() == limit
}

/// A listing holds records of the collection, newest first: none is left out unless
/// there is no room for it.
pub proof fn listings_hold_the_collection(
    docs: Seq<StoredView>,
    collection: Option<Seq<char>>,
    limit: int,
)
    requires
        limit >= 0,
    ensures
        is_list(docs, collection, limit, listed(docs, collection, limit)),
{
    let p = stored_in(collection);
    let all = docs.filter(p);
    let chosen = db::limited(all, limit);
    let keys = stored_instants(chosen);
    let found = listed(docs, collection, limit);
    let r = order::the_order(chosen.len() as int, order::by_key_desc(keys));
    table::lemma_filter_holds(docs, p);
    order::sorting_is_stable(chosen, keys);
    assert forall|i: int| 0 <= i < found.len() implies is_kept_in(
        docs,
        collection,
        #[trigger] found[i],
    ) by {
        assert(0 <= r[i] < chosen.len());
        assert(chosen[r[i]] == all[r[i]]);
        assert(all.contains(all[r[i]]));
        assert(p(all[r[i]]));
    }
    assert forall|i: int, j: int| 0 <= i < j < found.len() implies document::instant(
        (#[trigger] found[i]).added_at,
    ) >= document::instant((#[trigger] found[j]).added_at) by {
        assert(0 <= r[i] < chosen.len() && 0 <= r[j] < chosen.len());
    }
    assert forall|d: StoredView| #[trigger]
        is_kept_in(docs, collection, d) && !found.contains(d) implies found.len() == limit by {
        assert(p(d));
        assert(all.contains(d));
        let k = choose|k: int| 0 <= k < all.len() && all[k] == d;
        if k < chosen.len() {
            assert(chosen[k] == d);
            assert(r.contains(k));
            let i = choose|i: int| 0 <= i < r.len() && r[i] == k;
            assert(found[i] == d);
        }
    }
}

/// Whether the record that is stored under identifier `i` is in the collection, if one
/// is given.
pub open spec fn is_hit(
    docs: Seq<StoredView>,
    ids: Seq<Seq<char>>,
    collection: Option<Seq<char>>,
    i: int,
    d: int,
) -> bool {
    &&& 0 <= i < ids.len()
    &&& 0 <= d < docs.len()
    &&& docs[d].id == ids[i]
    &&& forall|e: int| 0 <= e < d ==> (#[trigger] docs[e]).id != ids[i]
    &&& collection is Some ==> docs[d].collection == collection.unwrap()
}

/// Whether identifier `i` is that of a hit.
pub open spec fn makes_hit(
    docs: Seq<StoredView>,
    ids: Seq<Seq<char>>,
    collection: Option<Seq<char>>,
    i: int,
) -> bool {
    exists|d: int| #[trigger] is_hit(docs, ids, collection, i, d)
}

/// Whether `places` are those of the first hits, in order, as many as are asked for, at
/// least one, or all of them.
pub open spec fn are_hit_places(
    docs: Seq<StoredView>,
    ids: Seq<Seq<char>>,
    collection: Option<Seq<char>>,
    limit: int,
    places: Seq<int>,
) -> bool {
    &&& places.len() <= limit || places.len() <= 1
    &&& forall|a: int, b: int| 0 <= a < b < places.len() ==> places[a] < places[b]
    &&& forall|a: int|
        0 <= a < places.len() ==> makes_hit(docs, ids, collection, #[trigger] places[a])
    &&& forall|i: int| #[trigger]
        makes_hit(docs, ids, collection, i) && !places.contains(i) ==> places.len() >= limit
            && places.len() > 0 && forall|a: int| 0 <= a < places.len() ==> #[trigger] places[a] < i
}

/// Whether `found` are the records of the first hits.
pub open spec fn are_hits(
    docs: Seq<StoredView>,
    ids: Seq<Seq<char>>,
    collection: Option<Seq<char>>,
    limit: int,
    found: Seq<StoredView>,
) -> bool {
    exists|places: Seq<int>| #[trigger]
        are_hit_places(docs, ids, collection, limit, places) && found.len() == places.len()
            && forall|k: int, d: int|
            0 <= k < found.len() && #[trigger] is_hit(docs, ids, collection, places[k], d)
                ==> found[k] == docs[d]
}

/// The places of the hits among the first `n` identifiers.
spec fn hit_places(
    docs: Seq<StoredView>,
    ids: Seq<Seq<char>>,
    collection: Option<Seq<char>>,
    n: int,
) -> Seq<int>
    decreases n,
{
    if n <= 0 {
        Seq::empty()
    } else if makes_hit(docs, ids, collection, n - 1) {
        hit_places(docs, ids, collection, n - 1).push(n - 1)
    } else {
        hit_places(docs, ids, collection, n - 1)
    }
}

/// A hit is the first record with the identifier, where it is in the collection.
proof fn lemma_hit(docs: Seq<StoredView>, ids: Seq<Seq<char>>, collection: Option<Seq<char>>, i: int)
    requires
        0 <= i < ids.len(),
    ensures
        makes_hit(docs, ids, collection, i) <==> match table::first_where(docs, stored_as(ids[i])) {
            Some(d) => stored_in(collection)(docs[d]),
            None => false,
        },
        forall|d: int| #[trigger]
            is_hit(docs, ids, collection, i, d) ==> table::first_where(docs, stored_as(ids[i]))
                == Some(d),
{
    let p = stored_as(ids[i]);
    table::lemma_first_from(docs, p, 0);
    assert forall|d: int| #[trigger] is_hit(docs, ids, collection, i, d) implies table::first_where(
        docs,
        p,
    ) == Some(d) by {
        assert forall|e: int| 0 <= e < d implies !p(#[trigger] docs[e]) by {}
        table::lemma_is_first(docs, p, d);
    }
    if let Some(d) = table::first_where(docs, p) {
        if stored_in(collection)(docs[d]) {
            assert forall|e: int| 0 <= e < d implies (#[trigger] docs[e]).id != ids[i] by {
                assert(!p(docs[e]));
            }
            assert(is_hit(docs, ids, collection, i, d));
        }
    }
}

proof fn lemma_hits_at(
    docs: Seq<StoredView>,
    ids: Seq<Seq<char>>,
    collection: Option<Seq<char>>,
    n: int,
)
    requires
        0 <= n <= ids.len(),
    ensures
        ({
            let found = hits(docs, ids, collection, n);
            let places = hit_places(docs, ids, collection, n);
            &&& found.len() == places.len()
            &&& forall|k: int, d: int|
                0 <= k < found.len() && #[trigger] is_hit(docs, ids, collection, places[k], d)
                    ==> found[k] == docs[d]
            &&& forall|a: int, b: int| 0 <= a < b < places.len() ==> places[a] < places[b]
            &&& forall|a: int|
                0 <= a < places.len() ==> #[trigger] places[a] < n && makes_hit(
                    docs,
                    ids,
                    collection,
                    places[a],
                )
            &&& forall|i: int| #[trigger]
                makes_hit(docs, ids, collection, i) && i < n ==> places.contains(i)
        }),
    decreases n,
{
    if n > 0 {
        lemma_hits_at(docs, ids, collection, n - 1);
        lemma_hit(docs, ids, collection, n - 1);
        let had = hits(docs, ids, collection, n - 1);
        let found = hits(docs, ids, collection, n);
        let was = hit_places(docs, ids, collection, n - 1);
        let places = hit_places(docs, ids, collection, n);
        assert forall|k: int, d: int|
            0 <= k < found.len() && #[trigger] is_hit(
                docs,
                ids,
                collection,
                places[k],
                d,
            ) implies found[k] == docs[d] by {
            if k < had.len() {
                assert(places[k] == was[k] && found[k] == had[k]);
                assert(is_hit(docs, ids, collection, was[k], d));
            }
        }
        assert forall|i: int| #[trigger]
            makes_hit(docs, ids, collection, i) && i < n implies places.contains(i) by {
            if i < n - 1 {
                assert(was.contains(i));
                let a = choose|a: int| 0 <= a < was.len() && was[a] == i;
                assert(places[a] == i);
            } else {
                assert(places.last() == i);
            }
        }
    }
}

/// Looking stops with the first record that makes enough.
proof fn lemma_looked_at(
    docs: Seq<StoredView>,
    ids: Seq<Seq<char>>,
    collection: Option<Seq<char>>,
    limit: int,
    n: int,
)
    requires
        0 <= n <= ids.len(),
        limit >= 0,
        hits(docs, ids, collection, n).len() < limit || hits(docs, ids, collection, n).len() == 0,
    ensures
        ({
            let stop = looked_at(docs, ids, collection, limit, n);
            let found = hits(docs, ids, collection, stop);
            &&& n <= stop <= ids.len()
            &&& found.len() <= limit || found.len() <= 1
            &&& stop < ids.len() ==> found.len() >= limit && found.len() > 0
        }),
    decreases ids.len() - n,
{
    if n < ids.len() {
        let now = hits(docs, ids, collection, n).len();
        let next = hits(docs, ids, collection, n + 1).len();
        assert(next == now || next == now + 1);
        if !(next > now && next >= limit) {
            lemma_looked_at(docs, ids, collection, limit, n + 1);
        }
    }
}

/// A search returns the records that the index found, those of the collection, the best
/// first: as many as are asked for, or all of them.
pub proof fn searches_return_the_best_records(
    docs: Seq<StoredView>,
    ids: Seq<Seq<char>>,
    collection: Option<Seq<char>>,
    limit: int,
)
    requires
        limit >= 0,
    ensures
        are_hits(
            docs,
            ids,
            collection,
            limit,
            hits(docs, ids, collection, looked_at(docs, ids, collection, limit, 0)),
        ),
{
    let stop = looked_at(docs, ids, collection, limit, 0);
    let found = hits(docs, ids, collection, stop);
    let places = hit_places(docs, ids, collection, stop);
    lemma_looked_at(docs, ids, collection, limit, 0);
    lemma_hits_at(docs, ids, collection, stop);
    assert forall|i: int| #[trigger]
        makes_hit(docs, ids, collection, i) && !places.contains(i) implies places.len() >= limit
        && places.len() > 0 && forall|a: int| 0 <= a < places.len() ==> #[trigger] places[a] < i by {
        let d = choose|d: int| #[trigger] is_hit(docs, ids, collection, i, d);
        assert(i >= stop);
    }
    assert(are_hit_places(docs, ids, collection, limit, places));
}

/// How many of the first `n` records are in the collection.
pub open spec fn records_in(docs: Seq<StoredView>, collection: Seq<char>, n: int) -> nat
    decreases n,
{
    if n <= 0 {
        0
    } else {
        records_in(docs, collection, n - 1) + if docs[n - 1].collection == collection {
            1nat
        } else {
            0nat
        }
    }
}

proof fn lemma_records_in(docs: Seq<StoredView>, collection: Seq<char>, n: int)
    requires
        0 <= n <= docs.len(),
    ensures
        table::count_where(docs.take(n), stored_in(Some(collection))) == records_in(
            docs,
            collection,
            n,
        ),
    decreases n,
{
    reveal(Seq::filter);
    if n > 0 {
        lemma_records_in(docs, collection, n - 1);
        assert(docs.take(n).drop_last() =~= docs.take(n - 1));
    }
}

/// Whether a count is given for the collection.
pub open spec fn is_counted(counts: Seq<(Seq<char>, int)>, name: Seq<char>) -> bool {
    exists|i: int| 0 <= i < counts.len() && (#[trigger] counts[i]).0 == name
}

/// Whether a record is in the collection.
pub open spec fn is_collection(docs: Seq<StoredView>, name: Seq<char>) -> bool {
    exists|d: int| 0 <= d < docs.len() && (#[trigger] docs[d]).collection == name
}

/// Whether `counts` lists every collection of the records once, with the number of its
/// records.
pub open spec fn are_counts(docs: Seq<StoredView>, counts: Seq<(Seq<char>, int)>) -> bool {
    &&& forall|i: int, j: int|
        0 <= i < j < counts.len() ==> (#[trigger] counts[i]).0 != (#[trigger] counts[j]).0
    &&& forall|i: int|
        0 <= i < counts.len() ==> (#[trigger] counts[i]).1 == records_in(
            docs,
            counts[i].0,
            docs.len() as int,
        )
    &&& forall|name: Seq<char>| #[trigger] is_counted(counts, name) <==> is_collection(docs, name)
}

/// The statistics list every collection once, with the number of its records.
pub proof fn statistics_count_the_collections(docs: Seq<StoredView>)
    ensures
        are_counts(docs, stored_counts(docs)),
{
    let all = stored_collections(docs);
    let names = table::distinct(all);
    let counts = stored_counts(docs);
    table::lemma_distinct(all);
    assert(docs.take(docs.len() as int) =~= docs);
    assert forall|i: int| 0 <= i < counts.len() implies (#[trigger] counts[i]).1 == records_in(
        docs,
        counts[i].0,
        docs.len() as int,
    ) by {
        lemma_records_in(docs, counts[i].0, docs.len() as int);
    }
    assert forall|name: Seq<char>| #[trigger]
        is_counted(counts, name) <==> is_collection(docs, name) by {
        assert(names.contains(name) == all.contains(name));
        if is_counted(counts, name) {
            let i = choose|i: int| 0 <= i < counts.len() && (#[trigger] counts[i]).0 == name;
            assert(names[i] == name);
            let d = choose|d: int| 0 <= d < all.len() && all[d] == name;
            assert(docs[d].collection == name);
        }
        if is_collection(docs, name) {
            let d = choose|d: int| 0 <= d < docs.len() && (#[trigger] docs[d]).collection == name;
            assert(all[d] == name);
            assert(names.contains(name));
            let i = choose|i: int| 0 <= i < names.len() && names[i] == name;
            assert(counts[i].0 == name);
        }
    }
}

} // verus!
