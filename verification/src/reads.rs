//! What is read from the store: listings, searches by label, search results,
//! counts, hubs and paths, each by what its rows are.

use vstd::prelude::*;

use crate::db;
use crate::db::{ChunkMatchView, DbView};
use crate::document;
use crate::document::DocumentView;
use crate::graph::{Confidence, EdgeView, GraphStats, NodeKind, NodeView};
use crate::order;
use crate::path;
use crate::path::Step;
use crate::report;
use crate::search;
use crate::search::SearchResultView;
use crate::table;
use crate::text;
use crate::traverse;

verus! {

// ---------------------------------------------------------------------------
// Listings
// ---------------------------------------------------------------------------

/// Whether a document is stored, in the collection if one is given.
pub open spec fn is_listed(store: DbView, collection: Option<Seq<char>>, d: DocumentView) -> bool {
    store.documents.contains(d) && (collection is Some ==> d.collection == collection.unwrap())
}

/// Whether `docs` are the newest documents of a collection, newest first and at most
/// `limit` of them.
pub open spec fn is_listing(
    store: DbView,
    collection: Option<Seq<char>>,
    limit: int,
    docs: Seq<DocumentView>,
) -> bool {
    &&& docs.len() <= limit
    &&& forall|i: int| 0 <= i < docs.len() ==> is_listed(store, collection, #[trigger] docs[i])
    &&& forall|i: int, j: int|
        0 <= i < j < docs.len() ==> document::instant((#[trigger] docs[i]).added_at)
            >= document::instant((#[trigger] docs[j]).added_at)
    &&& docs.to_multiset().subset_of(store.documents.to_multiset())
    &&& forall|d: DocumentView| #[trigger]
        is_listed(store, collection, d) && !docs.contains(d) ==> docs.len() == limit && forall|
            i: int,
        |
            0 <= i < docs.len() ==> document::instant((#[trigger] docs[i]).added_at)
                >= document::instant(d.added_at)
}

/// Filtering keeps no row more often than it occurs.
proof fn lemma_filter_subset<V>(s: Seq<V>, p: spec_fn(V) -> bool)
    ensures
        s.filter(p).to_multiset().subset_of(s.to_multiset()),
    decreases s.len(),
{
    broadcast use vstd::seq_lib::group_to_multiset_ensures;

    reveal(Seq::filter);
    if s.len() > 0 {
        let front = s.drop_last();
        lemma_filter_subset(front, p);
        assert(s =~= front.push(s.last()));
        assert(s.to_multiset() =~= front.to_multiset().insert(s.last()));
        if p(s.last()) {
            assert(s.filter(p).to_multiset() =~= front.filter(p).to_multiset().insert(s.last()));
        }
    }
}

/// The first rows hold no row more often than all of them.
proof fn lemma_take_subset<V>(s: Seq<V>, n: int)
    requires
        0 <= n <= s.len(),
    ensures
        s.take(n).to_multiset().subset_of(s.to_multiset()),
    decreases s.len() - n,
{
    broadcast use vstd::seq_lib::group_to_multiset_ensures;

    if n < s.len() {
        lemma_take_subset(s, n + 1);
        assert(s.take(n + 1) =~= s.take(n).push(s[n]));
        assert(s.take(n + 1).to_multiset() =~= s.take(n).to_multiset().insert(s[n]));
    } else {
        assert(s.take(n) =~= s);
    }
}

/// A listing holds the newest documents of a collection, each as it is stored, newest
/// first: none is left out unless there is no room, and what is left out is no newer.
pub proof fn listings_hold_the_newest(store: DbView, collection: Option<Seq<char>>, limit: int)
    requires
        limit >= 0,
    ensures
        is_listing(
            store,
            collection,
            limit,
            db::limited(db::newest_first(store, collection), limit),
        ),
{
    let p = db::doc_in(collection);
    let docs = store.documents.filter(p);
    let keys = db::instants(docs);
    let full = db::newest_first(store, collection);
    let r = order::the_order(docs.len() as int, order::by_key_desc(keys));
    let some = db::limited(full, limit);
    order::sorting_is_stable(docs, keys);
    order::lemma_arranged_multiset(docs, r);
    table::lemma_filter_holds(store.documents, p);
    lemma_filter_subset(store.documents, p);
    assert(full.take(full.len() as int) =~= full);
    lemma_take_subset(full, some.len() as int);
    assert(some =~= full.take(some.len() as int));
    assert forall|i: int| 0 <= i < full.len() implies is_listed(
        store,
        collection,
        #[trigger] full[i],
    ) by {
        assert(0 <= r[i] < docs.len());
        assert(docs.contains(docs[r[i]]));
        assert(p(docs[r[i]]));
    }
    assert forall|i: int, j: int| 0 <= i < j < full.len() implies document::instant(
        (#[trigger] full[i]).added_at,
    ) >= document::instant((#[trigger] full[j]).added_at) by {
        assert(0 <= r[i] < docs.len() && 0 <= r[j] < docs.len());
    }
    assert forall|i: int| 0 <= i < some.len() implies #[trigger] some[i] == full[i] by {}
    assert forall|i: int| 0 <= i < some.len() implies is_listed(
        store,
        collection,
        #[trigger] some[i],
    ) by {
        assert(is_listed(store, collection, full[i]));
    }
    assert forall|i: int, j: int| 0 <= i < j < some.len() implies document::instant(
        (#[trigger] some[i]).added_at,
    ) >= document::instant((#[trigger] some[j]).added_at) by {
        assert(some[i] == full[i] && some[j] == full[j]);
    }
    assert forall|d: DocumentView| #[trigger]
        is_listed(store, collection, d) && !some.contains(d) implies some.len() == limit && forall|
        i: int,
    |
        0 <= i < some.len() ==> document::instant((#[trigger] some[i]).added_at)
            >= document::instant(d.added_at) by {
        assert(p(d));
        assert(docs.contains(d));
        let k = choose|k: int| 0 <= k < docs.len() && docs[k] == d;
        assert(r.contains(k));
        let j = choose|j: int| 0 <= j < r.len() && r[j] == k;
        assert(full[j] == d);
        if j < some.len() {
            assert(some[j] == d);
        }
        assert forall|i: int| 0 <= i < some.len() implies document::instant(
            (#[trigger] some[i]).added_at,
        ) >= document::instant(d.added_at) by {
            assert(some[i] == full[i]);
            assert(i < j);
        }
    }
}

// ---------------------------------------------------------------------------
// Labels
// ---------------------------------------------------------------------------

/// Whether a node's label contains a text, but for letter case.
pub open spec fn label_contains(n: NodeView, label: Seq<char>) -> bool {
    exists|k: int| #[trigger]
        text::occurs_at(text::lowercase_of(n.label), text::lowercase_of(label), k)
}

/// How well a node's label matches a text, but for letter case: it equals it, begins
/// with it, contains it, or does not.
pub open spec fn label_rank(n: NodeView, label: Seq<char>) -> int {
    if text::lowercase_of(n.label) == text::lowercase_of(label) {
        0
    } else if text::occurs_at(text::lowercase_of(n.label), text::lowercase_of(label), 0) {
        1
    } else if label_contains(n, label) {
        2
    } else {
        3
    }
}

/// Whether an identifier is that of the node that matches a label best, the first of
/// several that match it equally well; none where no label contains it.
pub open spec fn is_best_match(nodes: Seq<NodeView>, label: Seq<char>, id: Option<Seq<char>>) -> bool {
    match id {
        Some(id) => exists|i: int|
            0 <= i < nodes.len() && (#[trigger] nodes[i]).id == id && label_rank(nodes[i], label) < 3
                && forall|j: int|
                0 <= j < nodes.len() ==> label_rank(#[trigger] nodes[j], label) >= label_rank(
                    nodes[i],
                    label,
                ) && (j < i ==> label_rank(nodes[j], label) > label_rank(nodes[i], label)),
        None => forall|j: int| 0 <= j < nodes.len() ==> label_rank(#[trigger] nodes[j], label) == 3,
    }
}

/// Containing a text is holding it somewhere.
proof fn lemma_label_holds(n: NodeView, label: Seq<char>)
    ensures
        db::label_holds(label)(n) == label_contains(n, label),
        db::label_begins(label)(n) ==> label_contains(n, label),
        db::label_is(label)(n) ==> db::label_begins(label)(n),
{
    let own = text::lowercase_of(n.label);
    let want = text::lowercase_of(label);
    text::lemma_find_from(own, want, 0);
    if label_contains(n, label) {
        let k = choose|k: int| #[trigger] text::occurs_at(own, want, k);
        assert(k >= 0);
    }
    if own == want {
        assert(own.subrange(0, own.len() as int) =~= own);
    }
}

/// A label stands for the node that matches it best.
pub proof fn labels_stand_for_the_best_match(nodes: Seq<NodeView>, label: Seq<char>)
    ensures
        is_best_match(
            nodes,
            label,
            match db::labelled(nodes, label) {
                Some(i) => Some(nodes[i].id),
                None => None,
            },
        ),
{
    let is = db::label_is(label);
    let begins = db::label_begins(label);
    let holds = db::label_holds(label);
    table::lemma_first_from(nodes, is, 0);
    table::lemma_first_from(nodes, begins, 0);
    table::lemma_first_from(nodes, holds, 0);
    assert forall|j: int| 0 <= j < nodes.len() implies label_rank(#[trigger] nodes[j], label) == (
    if is(nodes[j]) {
        0int
    } else if begins(nodes[j]) {
        1int
    } else if holds(nodes[j]) {
        2int
    } else {
        3int
    }) by {
        lemma_label_holds(nodes[j], label);
    }
    if let Some(i) = db::labelled(nodes, label) {
        assert forall|j: int| 0 <= j < nodes.len() implies label_rank(#[trigger] nodes[j], label)
            >= label_rank(nodes[i], label) && (j < i ==> label_rank(nodes[j], label) > label_rank(
            nodes[i],
            label,
        )) by {
            lemma_label_holds(nodes[j], label);
            lemma_label_holds(nodes[i], label);
        }
        assert(nodes[i].id == nodes[i].id);
        lemma_label_holds(nodes[i], label);
        assert(label_rank(nodes[i], label) < 3);
    } else {
        assert forall|j: int| 0 <= j < nodes.len() implies label_rank(#[trigger] nodes[j], label)
            == 3 by {
            lemma_label_holds(nodes[j], label);
        }
    }
}

/// Nodes whose label contains a text, but for letter case.
pub open spec fn containing(label: Seq<char>) -> spec_fn(NodeView) -> bool {
    |n: NodeView| label_contains(n, label)
}

/// Whether `ids` are the identifiers of the nodes whose label contains a text, in the
/// order of the nodes.
pub open spec fn are_matches(nodes: Seq<NodeView>, label: Seq<char>, ids: Seq<Seq<char>>) -> bool {
    exists|places: Seq<int>| #[trigger]
        table::are_places(nodes, containing(label), places) && ids.len() == places.len() && forall|
            k: int,
        |
            0 <= k < ids.len() ==> ids[k] == nodes[#[trigger] places[k]].id
}

/// A search by label finds the nodes whose label contains the text, and no others.
pub proof fn label_searches_find_what_contains_the_text(nodes: Seq<NodeView>, label: Seq<char>)
    ensures
        are_matches(nodes, label, db::node_ids(nodes.filter(db::label_holds(label)))),
{
    let p = db::label_holds(label);
    let q = containing(label);
    assert forall|n: NodeView| #[trigger] p(n) == q(n) by {
        lemma_label_holds(n, label);
    }
    table::lemma_filter_same(nodes, p, q);
    let places = table::lemma_filter_places(nodes, q);
    let ids = db::node_ids(nodes.filter(p));
    assert forall|k: int| 0 <= k < ids.len() implies ids[k] == nodes[#[trigger] places[k]].id by {}
}

// ---------------------------------------------------------------------------
// Search results
// ---------------------------------------------------------------------------

/// Whether a document with the identifier is stored, in the collection if one is
/// given: it is the first with the identifier that counts.
pub open spec fn is_found_in(
    store: DbView,
    collection: Option<Seq<char>>,
    id: Seq<char>,
    d: int,
) -> bool {
    &&& 0 <= d < store.documents.len()
    &&& store.documents[d].id == id
    &&& forall|e: int| 0 <= e < d ==> (#[trigger] store.documents[e]).id != id
    &&& collection is Some ==> store.documents[d].collection == collection.unwrap()
}

/// Whether row `i` of the matching rows makes a result: no better row is of the same
/// document, which is stored in the collection.
pub open spec fn makes_result(
    store: DbView,
    ranked: Seq<ChunkMatchView>,
    collection: Option<Seq<char>>,
    i: int,
) -> bool {
    &&& 0 <= i < ranked.len()
    &&& exists|d: int| #[trigger] is_found_in(store, collection, ranked[i].doc_id, d)
    &&& forall|j: int| 0 <= j < i ==> (#[trigger] ranked[j]).doc_id != ranked[i].doc_id
}

/// Whether a result is that of a matching row.
pub open spec fn is_result_of_row(
    store: DbView,
    collection: Option<Seq<char>>,
    with_snippets: bool,
    row: ChunkMatchView,
    r: SearchResultView,
) -> bool {
    &&& r.doc_id == row.doc_id
    &&& r.title == row.title
    &&& r.snippet == if with_snippets {
        row.snippet
    } else {
        None
    }
    &&& forall|d: int| #[trigger]
        is_found_in(store, collection, row.doc_id, d) ==> r.collection == Some(
            store.documents[d].collection,
        )
}

/// Whether `places` are the first `limit` places, in order, of the rows that make a
/// result.
pub open spec fn are_best_rows(
    store: DbView,
    ranked: Seq<ChunkMatchView>,
    collection: Option<Seq<char>>,
    limit: int,
    places: Seq<int>,
) -> bool {
    &&& places.len() <= limit
    &&& forall|a: int, b: int| 0 <= a < b < places.len() ==> places[a] < places[b]
    &&& forall|a: int|
        0 <= a < places.len() ==> makes_result(store, ranked, collection, #[trigger] places[a])
    &&& forall|i: int| #[trigger]
        makes_result(store, ranked, collection, i) && !places.contains(i) ==> places.len() == limit
            && forall|a: int| 0 <= a < places.len() ==> #[trigger] places[a] < i
}

/// Whether `results` are the results of a search with the given matching rows, best
/// first.
pub open spec fn are_results(
    store: DbView,
    ranked: Seq<ChunkMatchView>,
    collection: Option<Seq<char>>,
    with_snippets: bool,
    limit: int,
    results: Seq<SearchResultView>,
) -> bool {
    exists|places: Seq<int>| #[trigger]
        are_best_rows(store, ranked, collection, limit, places) && results.len() == places.len()
            && forall|k: int|
            0 <= k < results.len() ==> is_result_of_row(
                store,
                collection,
                with_snippets,
                ranked[#[trigger] places[k]],
                results[k],
            )
}

/// The places of the rows that make a result, among the first `n`.
spec fn result_places(
    store: DbView,
    ranked: Seq<ChunkMatchView>,
    collection: Option<Seq<char>>,
    n: int,
) -> Seq<int>
    decreases n,
{
    if n <= 0 {
        Seq::empty()
    } else if makes_result(store, ranked, collection, n - 1) {
        result_places(store, ranked, collection, n - 1).push(n - 1)
    } else {
        result_places(store, ranked, collection, n - 1)
    }
}

/// A document is found in a collection iff the first with its identifier is in it.
proof fn lemma_found_in(store: DbView, collection: Option<Seq<char>>, id: Seq<char>)
    ensures
        (exists|d: int| #[trigger] is_found_in(store, collection, id, d)) <==> match table::first_where(
            store.documents,
            db::doc_has_id(id),
        ) {
            Some(i) => db::doc_in(collection)(store.documents[i]),
            None => false,
        },
        forall|d: int| #[trigger]
            is_found_in(store, collection, id, d) ==> table::first_where(
                store.documents,
                db::doc_has_id(id),
            ) == Some(d),
{
    let p = db::doc_has_id(id);
    table::lemma_first_from(store.documents, p, 0);
    assert forall|d: int| #[trigger]
        is_found_in(store, collection, id, d) implies table::first_where(store.documents, p) == Some(
        d,
    ) by {
        assert forall|e: int| 0 <= e < d implies !p(#[trigger] store.documents[e]) by {}
        table::lemma_is_first(store.documents, p, d);
    }
    if let Some(i) = table::first_where(store.documents, p) {
        if db::doc_in(collection)(store.documents[i]) {
            assert forall|e: int| 0 <= e < i implies (#[trigger] store.documents[e]).id != id by {
                assert(!p(store.documents[e]));
            }
            assert(is_found_in(store, collection, id, i));
        }
    }
}

/// The results of the first `n` rows, one for each document.
proof fn lemma_results_at(
    store: DbView,
    ranked: Seq<ChunkMatchView>,
    collection: Option<Seq<char>>,
    with_snippets: bool,
    n: int,
)
    requires
        0 <= n <= ranked.len(),
    ensures
        ({
            let all = db::results_upto(store, ranked, collection, with_snippets, n);
            let found = db::one_per_document(all);
            let places = result_places(store, ranked, collection, n);
            &&& found.len() == places.len()
            &&& forall|k: int|
                0 <= k < found.len() ==> is_result_of_row(
                    store,
                    collection,
                    with_snippets,
                    ranked[#[trigger] places[k]],
                    found[k],
                )
            &&& forall|id: Seq<char>| #[trigger]
                db::has_result(all, id) <==> (exists|d: int| #[trigger]
                    is_found_in(store, collection, id, d)) && exists|j: int|
                    0 <= j < n && (#[trigger] ranked[j]).doc_id == id
        }),
    decreases n,
{
    if n > 0 {
        lemma_results_at(store, ranked, collection, with_snippets, n - 1);
        let row = ranked[n - 1];
        let before = db::results_upto(store, ranked, collection, with_snippets, n - 1);
        let all = db::results_upto(store, ranked, collection, with_snippets, n);
        let had = db::one_per_document(before);
        let found = db::one_per_document(all);
        let was = result_places(store, ranked, collection, n - 1);
        let places = result_places(store, ranked, collection, n);
        lemma_found_in(store, collection, row.doc_id);
        let stored = exists|d: int| #[trigger] is_found_in(store, collection, row.doc_id, d);
        if stored {
            let last = all.last();
            assert(all == before.push(last));
            assert(all.drop_last() =~= before);
            assert(last.doc_id == row.doc_id);
            assert(is_result_of_row(store, collection, with_snippets, row, last));
            assert(db::has_result(before, row.doc_id) <==> !makes_result(
                store,
                ranked,
                collection,
                n - 1,
            )) by {
                if db::has_result(before, row.doc_id) {
                    let j = choose|j: int|
                        0 <= j < n - 1 && (#[trigger] ranked[j]).doc_id == row.doc_id;
                    assert(ranked[j].doc_id == row.doc_id);
                } else {
                    assert forall|j: int| 0 <= j < n - 1 implies (#[trigger] ranked[j]).doc_id
                        != ranked[n - 1].doc_id by {
                        if ranked[j].doc_id == row.doc_id {
                            assert(db::has_result(before, row.doc_id));
                        }
                    }
                }
            }
            assert forall|k: int| 0 <= k < found.len() implies is_result_of_row(
                store,
                collection,
                with_snippets,
                ranked[#[trigger] places[k]],
                found[k],
            ) by {
                if k < had.len() {
                    assert(places[k] == was[k] && found[k] == had[k]);
                }
            }
        } else {
            assert(all == before);
            assert(!makes_result(store, ranked, collection, n - 1));
        }
        assert forall|id: Seq<char>| #[trigger]
            db::has_result(all, id) <==> (exists|d: int| #[trigger]
                is_found_in(store, collection, id, d)) && exists|j: int|
                0 <= j < n && (#[trigger] ranked[j]).doc_id == id by {
            assert(db::has_result(before, id) <==> (exists|d: int| #[trigger]
                is_found_in(store, collection, id, d)) && exists|j: int|
                0 <= j < n - 1 && (#[trigger] ranked[j]).doc_id == id);
            if db::has_result(before, id) {
                let i = choose|i: int| 0 <= i < before.len() && (#[trigger] before[i]).doc_id == id;
                assert(all[i].doc_id == id);
                let j = choose|j: int| 0 <= j < n - 1 && (#[trigger] ranked[j]).doc_id == id;
                assert(0 <= j < n);
            }
            if stored && id == row.doc_id {
                assert(all[all.len() - 1].doc_id == id);
                assert(ranked[n - 1].doc_id == id);
            }
            if db::has_result(all, id) && !db::has_result(before, id) {
                let i = choose|i: int| 0 <= i < all.len() && (#[trigger] all[i]).doc_id == id;
                if i < before.len() {
                    assert(before[i].doc_id == id);
                }
                assert(ranked[n - 1].doc_id == id);
            }
            if exists|j: int| 0 <= j < n && (#[trigger] ranked[j]).doc_id == id {
                let j = choose|j: int| 0 <= j < n && (#[trigger] ranked[j]).doc_id == id;
                if j < n - 1 {
                    assert(ranked[j].doc_id == id);
                }
            }
        }
    }
}

/// The places of the rows that make a result are all of them, in order.
proof fn lemma_result_places(
    store: DbView,
    ranked: Seq<ChunkMatchView>,
    collection: Option<Seq<char>>,
    n: int,
)
    requires
        0 <= n <= ranked.len(),
    ensures
        ({
            let places = result_places(store, ranked, collection, n);
            &&& forall|a: int, b: int| 0 <= a < b < places.len() ==> places[a] < places[b]
            &&& forall|a: int|
                0 <= a < places.len() ==> #[trigger] places[a] < n && makes_result(
                    store,
                    ranked,
                    collection,
                    places[a],
                )
            &&& forall|i: int| #[trigger]
                makes_result(store, ranked, collection, i) && i < n ==> places.contains(i)
        }),
    decreases n,
{
    if n > 0 {
        lemma_result_places(store, ranked, collection, n - 1);
        let was = result_places(store, ranked, collection, n - 1);
        let places = result_places(store, ranked, collection, n);
        assert forall|i: int| #[trigger]
            makes_result(store, ranked, collection, i) && i < n implies places.contains(i) by {
            if i < n - 1 {
                assert(was.contains(i));
                let a = choose|a: int| 0 <= a < was.len() && was[a] == i;
                assert(places[a] == i);
            } else {
                assert(places.last() == i);
            }
        }
    }
}

/// A full-text search finds every stored document of the collection that a row
/// matches, once, with its best row, the best first; what there is no room for
/// matches no better.
pub proof fn searches_find_every_matching_document(
    store: DbView,
    ranked: Seq<ChunkMatchView>,
    collection: Option<Seq<char>>,
    with_snippets: bool,
    limit: int,
)
    requires
        limit >= 0,
    ensures
        are_results(
            store,
            ranked,
            collection,
            with_snippets,
            limit,
            db::fts_results(store, ranked, limit, collection, with_snippets),
        ),
{
    let n = ranked.len() as int;
    let all = result_places(store, ranked, collection, n);
    let found = db::fts_found(store, ranked, collection, with_snippets);
    let results = db::fts_results(store, ranked, limit, collection, with_snippets);
    lemma_results_at(store, ranked, collection, with_snippets, n);
    lemma_result_places(store, ranked, collection, n);
    let places = all.take(results.len() as int);
    assert forall|i: int| #[trigger]
        makes_result(store, ranked, collection, i) && !places.contains(i) implies places.len()
        == limit && forall|a: int| 0 <= a < places.len() ==> #[trigger] places[a] < i by {
        assert(all.contains(i));
        let b = choose|b: int| 0 <= b < all.len() && all[b] == i;
        if b < places.len() {
            assert(places[b] == i);
        }
        assert forall|a: int| 0 <= a < places.len() implies #[trigger] places[a] < i by {
            assert(all[a] < all[b]);
        }
    }
    assert forall|a: int| 0 <= a < places.len() implies makes_result(
        store,
        ranked,
        collection,
        #[trigger] places[a],
    ) by {
        assert(all[a] < n);
    }
    assert forall|a: int, b: int| 0 <= a < b < places.len() implies places[a] < places[b] by {
        assert(all[a] < all[b]);
    }
    assert(are_best_rows(store, ranked, collection, limit, places));
    assert forall|k: int| 0 <= k < results.len() implies is_result_of_row(
        store,
        collection,
        with_snippets,
        ranked[#[trigger] places[k]],
        results[k],
    ) by {
        assert(places[k] == all[k] && results[k] == found[k]);
    }
}

/// The highest score of a document is that of one of its embeddings, none of which has
/// a higher one; it is nothing where all its scores are.
pub proof fn best_scores_are_the_highest(scores: Seq<(Seq<char>, int)>, doc_id: Seq<char>)
    ensures
        ({
            let best = db::best_score(scores, doc_id);
            &&& best >= 0
            &&& forall|i: int|
                0 <= i < scores.len() && (#[trigger] scores[i]).0 == doc_id ==> scores[i].1 <= best
            &&& best > 0 ==> exists|i: int|
                0 <= i < scores.len() && (#[trigger] scores[i]).0 == doc_id && scores[i].1 == best
        }),
    decreases scores.len(),
{
    if scores.len() > 0 {
        let front = scores.drop_last();
        best_scores_are_the_highest(front, doc_id);
        let before = db::best_score(front, doc_id);
        let best = db::best_score(scores, doc_id);
        assert forall|i: int| 0 <= i < scores.len() && (#[trigger] scores[i]).0
            == doc_id implies scores[i].1 <= best by {
            if i < front.len() {
                assert(front[i].0 == doc_id);
            }
        }
        if best > 0 {
            if best == before {
                let i = choose|i: int|
                    0 <= i < front.len() && (#[trigger] front[i]).0 == doc_id && front[i].1 == before;
                assert(scores[i].0 == doc_id && scores[i].1 == best);
            } else {
                assert(scores[scores.len() - 1].0 == doc_id);
            }
        }
    }
}

// ---------------------------------------------------------------------------
// Counts
// ---------------------------------------------------------------------------

/// How many of the first `n` nodes are of the kind.
pub open spec fn nodes_of_kind(nodes: Seq<NodeView>, kind: NodeKind, n: int) -> nat
    decreases n,
{
    if n <= 0 {
        0
    } else {
        nodes_of_kind(nodes, kind, n - 1) + if nodes[n - 1].kind == kind {
            1nat
        } else {
            0nat
        }
    }
}

/// How many of the first `n` edges are of the confidence.
pub open spec fn edges_of_confidence(edges: Seq<EdgeView>, confidence: Confidence, n: int) -> nat
    decreases n,
{
    if n <= 0 {
        0
    } else {
        edges_of_confidence(edges, confidence, n - 1) + if edges[n - 1].confidence == confidence {
            1nat
        } else {
            0nat
        }
    }
}

/// Whether an edge leaves a node.
pub open spec fn has_link(edges: Seq<EdgeView>, id: Seq<char>) -> bool {
    exists|i: int| 0 <= i < edges.len() && (#[trigger] edges[i]).source == id
}

/// How many of the first `n` nodes are documents that no edge leaves.
pub open spec fn lone_documents(nodes: Seq<NodeView>, edges: Seq<EdgeView>, n: int) -> nat
    decreases n,
{
    if n <= 0 {
        0
    } else {
        lone_documents(nodes, edges, n - 1) + if nodes[n - 1].kind == NodeKind::Document
            && !has_link(edges, nodes[n - 1].id) {
            1nat
        } else {
            0nat
        }
    }
}

/// How many of the first `n` documents are in the collection.
pub open spec fn documents_in(docs: Seq<DocumentView>, collection: Seq<char>, n: int) -> nat
    decreases n,
{
    if n <= 0 {
        0
    } else {
        documents_in(docs, collection, n - 1) + if docs[n - 1].collection == collection {
            1nat
        } else {
            0nat
        }
    }
}

/// Whether the counts of a graph are those of its nodes by kind, its edges by
/// confidence and its documents without links.
pub open spec fn counts_the_graph(store: DbView, s: GraphStats) -> bool {
    let n = store.nodes.len() as int;
    let m = store.edges.len() as int;
    &&& s.total_nodes == n
    &&& s.doc_nodes == nodes_of_kind(store.nodes, NodeKind::Document, n)
    &&& s.wikilink_nodes == nodes_of_kind(store.nodes, NodeKind::WikiLink, n)
    &&& s.tag_nodes == nodes_of_kind(store.nodes, NodeKind::Tag, n)
    &&& s.total_edges == m
    &&& s.extracted_edges == edges_of_confidence(store.edges, Confidence::Extracted, m)
    &&& s.inferred_edges == edges_of_confidence(store.edges, Confidence::Inferred, m)
    &&& s.ambiguous_edges == edges_of_confidence(store.edges, Confidence::Ambiguous, m)
    &&& s.isolated_docs == lone_documents(store.nodes, store.edges, n)
}

proof fn lemma_kind_count(nodes: Seq<NodeView>, kind: NodeKind, n: int)
    requires
        0 <= n <= nodes.len(),
    ensures
        table::count_where(nodes.take(n), db::node_of_kind(kind)) == nodes_of_kind(nodes, kind, n),
    decreases n,
{
    reveal(Seq::filter);
    if n > 0 {
        lemma_kind_count(nodes, kind, n - 1);
        assert(nodes.take(n).drop_last() =~= nodes.take(n - 1));
    }
}

proof fn lemma_confidence_count(edges: Seq<EdgeView>, confidence: Confidence, n: int)
    requires
        0 <= n <= edges.len(),
    ensures
        table::count_where(edges.take(n), db::edge_of_confidence(confidence))
            == edges_of_confidence(edges, confidence, n),
    decreases n,
{
    reveal(Seq::filter);
    if n > 0 {
        lemma_confidence_count(edges, confidence, n - 1);
        assert(edges.take(n).drop_last() =~= edges.take(n - 1));
    }
}

proof fn lemma_lone_count(nodes: Seq<NodeView>, edges: Seq<EdgeView>, n: int)
    requires
        0 <= n <= nodes.len(),
    ensures
        table::count_where(nodes.take(n), db::unlinked_doc(edges)) == lone_documents(
            nodes,
            edges,
            n,
        ),
    decreases n,
{
    reveal(Seq::filter);
    if n > 0 {
        lemma_lone_count(nodes, edges, n - 1);
        assert(nodes.take(n).drop_last() =~= nodes.take(n - 1));
        let id = nodes[n - 1].id;
        let p = db::edge_from(id);
        if has_link(edges, id) {
            let i = choose|i: int| 0 <= i < edges.len() && (#[trigger] edges[i]).source == id;
            assert(p(edges[i]));
        }
        if table::any_where(edges, p) {
            let i = choose|i: int| 0 <= i < edges.len() && p(#[trigger] edges[i]);
            assert(edges[i].source == id);
        }
    }
}

proof fn lemma_collection_count(docs: Seq<DocumentView>, collection: Seq<char>, n: int)
    requires
        0 <= n <= docs.len(),
    ensures
        table::count_where(docs.take(n), db::doc_in(Some(collection))) == documents_in(
            docs,
            collection,
            n,
        ),
    decreases n,
{
    reveal(Seq::filter);
    if n > 0 {
        lemma_collection_count(docs, collection, n - 1);
        assert(docs.take(n).drop_last() =~= docs.take(n - 1));
    }
}

/// The statistics of a graph count its nodes by kind, its edges by confidence, and the
/// documents that no edge leaves.
pub proof fn statistics_count_the_graph(store: DbView, s: GraphStats)
    requires
        db::is_graph_stats(store, s),
    ensures
        counts_the_graph(store, s),
{
    let n = store.nodes.len() as int;
    let m = store.edges.len() as int;
    assert(store.nodes.take(n) =~= store.nodes);
    assert(store.edges.take(m) =~= store.edges);
    lemma_kind_count(store.nodes, NodeKind::Document, n);
    lemma_kind_count(store.nodes, NodeKind::WikiLink, n);
    lemma_kind_count(store.nodes, NodeKind::Tag, n);
    lemma_confidence_count(store.edges, Confidence::Extracted, m);
    lemma_confidence_count(store.edges, Confidence::Inferred, m);
    lemma_confidence_count(store.edges, Confidence::Ambiguous, m);
    lemma_lone_count(store.nodes, store.edges, n);
}

/// Whether `counts` lists every collection of the documents once, as in a dictionary,
/// each with the number of its documents.
pub open spec fn are_collections(docs: Seq<DocumentView>, counts: Seq<(Seq<char>, int)>) -> bool {
    &&& forall|i: int, j: int|
        0 <= i < j < counts.len() ==> search::comes_before(
            (#[trigger] counts[i]).0,
            (#[trigger] counts[j]).0,
        )
    &&& forall|i: int|
        0 <= i < counts.len() ==> (#[trigger] counts[i]).1 > 0 && counts[i].1 == documents_in(
            docs,
            counts[i].0,
            docs.len() as int,
        )
    &&& forall|d: int|
        0 <= d < docs.len() ==> exists|i: int|
            0 <= i < counts.len() && (#[trigger] counts[i]).0 == (#[trigger] docs[d]).collection
}

/// How many documents are in a collection grows with each of them.
proof fn lemma_documents_in_more(docs: Seq<DocumentView>, collection: Seq<char>, d: int, n: int)
    requires
        0 <= d < n <= docs.len(),
        docs[d].collection == collection,
    ensures
        documents_in(docs, collection, n) > 0,
    decreases n,
{
    if d < n - 1 {
        lemma_documents_in_more(docs, collection, d, n - 1);
    }
}

/// The statistics of a store list every collection once, as in a dictionary, each with
/// the number of its documents.
pub proof fn statistics_list_the_collections(docs: Seq<DocumentView>)
    ensures
        are_collections(docs, db::collection_counts(docs)),
{
    let counts = db::collection_counts(docs);
    let all = db::collections_of(docs);
    let names = table::distinct(all);
    let sorted = order::sorted_by_text(names, names);
    let r = order::the_order(names.len() as int, order::by_text(names));
    table::lemma_distinct(all);
    order::sorting_by_text_is_stable(names, names);
    assert(docs.take(docs.len() as int) =~= docs);
    assert forall|i: int, j: int| 0 <= i < j < counts.len() implies search::comes_before(
        (#[trigger] counts[i]).0,
        (#[trigger] counts[j]).0,
    ) by {
        assert(0 <= r[i] < names.len() && 0 <= r[j] < names.len());
        assert(counts[i].0 == names[r[i]] && counts[j].0 == names[r[j]]);
        if names[r[i]] == names[r[j]] {
            assert(r[i] == r[j]);
        }
        search::texts_are_ordered_as_in_a_dictionary(counts[i].0, counts[j].0);
    }
    assert forall|i: int| 0 <= i < counts.len() implies (#[trigger] counts[i]).1 > 0 && counts[i].1
        == documents_in(docs, counts[i].0, docs.len() as int) by {
        assert(0 <= r[i] < names.len());
        let name = counts[i].0;
        assert(name == names[r[i]]);
        lemma_collection_count(docs, name, docs.len() as int);
        assert(names.contains(name));
        assert(all.contains(name));
        let d = choose|d: int| 0 <= d < all.len() && all[d] == name;
        lemma_documents_in_more(docs, name, d, docs.len() as int);
    }
    assert forall|d: int| 0 <= d < docs.len() implies exists|i: int|
        0 <= i < counts.len() && (#[trigger] counts[i]).0 == (#[trigger] docs[d]).collection by {
        let name = docs[d].collection;
        assert(all[d] == name);
        assert(all.contains(name));
        assert(names.contains(name));
        let k = choose|k: int| 0 <= k < names.len() && names[k] == name;
        assert(r.contains(k));
        let i = choose|i: int| 0 <= i < r.len() && r[i] == k;
        assert(counts[i].0 == name);
    }
}

// ---------------------------------------------------------------------------
// Embeddings
// ---------------------------------------------------------------------------

/// Whether an embedding of the document is stored.
pub open spec fn is_embedded(store: DbView, doc_id: Seq<char>) -> bool {
    exists|i: int| 0 <= i < store.embeddings.len() && (#[trigger] store.embeddings[i]).doc_id == doc_id
}

/// Documents of which no embedding is stored.
pub open spec fn not_embedded(store: DbView) -> spec_fn(DocumentView) -> bool {
    |d: DocumentView| !is_embedded(store, d.id)
}

/// Whether `ids` are the identifiers of the documents of which no embedding is stored,
/// in the order of the documents.
pub open spec fn are_unembedded(store: DbView, ids: Seq<Seq<char>>) -> bool {
    exists|places: Seq<int>| #[trigger]
        table::are_places(store.documents, not_embedded(store), places) && ids.len() == places.len()
            && forall|k: int|
            0 <= k < ids.len() ==> ids[k] == store.documents[#[trigger] places[k]].id
}

/// The documents to embed are those of which no embedding is stored.
pub proof fn unembedded_documents_have_no_embedding(store: DbView)
    ensures
        are_unembedded(
            store,
            db::doc_ids(store.documents.filter(db::doc_unembedded(store.embeddings))),
        ),
{
    let p = db::doc_unembedded(store.embeddings);
    let q = not_embedded(store);
    assert forall|d: DocumentView| #[trigger] p(d) == q(d) by {
        let e = db::embedding_of(d.id);
        if is_embedded(store, d.id) {
            let i = choose|i: int|
                0 <= i < store.embeddings.len() && (#[trigger] store.embeddings[i]).doc_id == d.id;
            assert(e(store.embeddings[i]));
        }
        if table::any_where(store.embeddings, e) {
            let i = choose|i: int| 0 <= i < store.embeddings.len() && e(
                #[trigger] store.embeddings[i],
            );
            assert(store.embeddings[i].doc_id == d.id);
        }
    }
    table::lemma_filter_same(store.documents, p, q);
    let places = table::lemma_filter_places(store.documents, q);
    let ids = db::doc_ids(store.documents.filter(p));
    assert forall|k: int| 0 <= k < ids.len() implies ids[k] == store.documents[#[trigger] places[k]].id by {}
}

// ---------------------------------------------------------------------------
// Hubs
// ---------------------------------------------------------------------------

/// How many links a node of the graph has.
pub open spec fn links_at(store: DbView, n: NodeView) -> usize {
    traverse::saturated(traverse::ends_at(store.edges, n.id, store.edges.len() as int))
}

/// Whether `places` are those of nodes with links, the most linked first and at most
/// `limit` of them.
pub open spec fn are_hub_places(store: DbView, limit: int, places: Seq<int>) -> bool {
    &&& places.len() <= limit
    &&& places.no_duplicates()
    &&& forall|a: int|
        0 <= a < places.len() ==> 0 <= #[trigger] places[a] < store.nodes.len() && links_at(
            store,
            store.nodes[places[a]],
        ) > 0
    &&& forall|a: int, b: int|
        0 <= a < b < places.len() ==> links_at(store, store.nodes[#[trigger] places[a]])
            >= links_at(store, store.nodes[#[trigger] places[b]])
    &&& forall|i: int|
        0 <= i < store.nodes.len() && links_at(store, #[trigger] store.nodes[i]) > 0
            && !places.contains(i) ==> places.len() == limit && forall|a: int|
            0 <= a < places.len() ==> links_at(store, store.nodes[#[trigger] places[a]])
                >= links_at(store, store.nodes[i])
}

/// Whether `hubs` are the nodes with links, each with how many it has, the most linked
/// first and at most `limit` of them.
pub open spec fn are_hubs(store: DbView, limit: int, hubs: Seq<(NodeView, usize)>) -> bool {
    exists|places: Seq<int>| #[trigger]
        are_hub_places(store, limit, places) && hubs.len() == places.len() && forall|k: int|
            0 <= k < hubs.len() ==> hubs[k] == (
                store.nodes[#[trigger] places[k]],
                links_at(store, store.nodes[places[k]]),
            )
}

/// The places of the first `n` nodes that have links.
spec fn linked_places(store: DbView, n: int) -> Seq<int>
    decreases n,
{
    if n <= 0 {
        Seq::empty()
    } else if links_at(store, store.nodes[n - 1]) > 0 {
        linked_places(store, n - 1).push(n - 1)
    } else {
        linked_places(store, n - 1)
    }
}

proof fn lemma_linked_places(store: DbView, n: int)
    requires
        0 <= n <= store.nodes.len(),
    ensures
        ({
            let places = linked_places(store, n);
            let found = report::connected(store, n);
            &&& found.len() == places.len()
            &&& forall|a: int, b: int| 0 <= a < b < places.len() ==> places[a] < places[b]
            &&& forall|a: int|
                0 <= a < places.len() ==> 0 <= #[trigger] places[a] < n && links_at(
                    store,
                    store.nodes[places[a]],
                ) > 0 && found[a] == (
                    store.nodes[places[a]],
                    links_at(store, store.nodes[places[a]]),
                )
            &&& forall|i: int|
                0 <= i < n && links_at(store, #[trigger] store.nodes[i]) > 0 ==> places.contains(i)
        }),
    decreases n,
{
    if n > 0 {
        lemma_linked_places(store, n - 1);
        let was = linked_places(store, n - 1);
        let places = linked_places(store, n);
        let had = report::connected(store, n - 1);
        let found = report::connected(store, n);
        traverse::degrees_count_the_links(store.edges, store.nodes[n - 1].id);
        assert forall|a: int| 0 <= a < places.len() implies 0 <= #[trigger] places[a] < n
            && links_at(store, store.nodes[places[a]]) > 0 && found[a] == (
            store.nodes[places[a]],
            links_at(store, store.nodes[places[a]]),
        ) by {
            if a < was.len() {
                assert(places[a] == was[a] && found[a] == had[a]);
            }
        }
        assert forall|i: int| 0 <= i < n && links_at(store, #[trigger] store.nodes[i])
            > 0 implies places.contains(i) by {
            if i < n - 1 {
                assert(was.contains(i));
                let a = choose|a: int| 0 <= a < was.len() && was[a] == i;
                assert(places[a] == i);
            } else {
                assert(places.last() == i);
            }
        }
    }
}

/// The hubs of a graph are its most linked nodes: each has a link, none is listed twice,
/// and no node that is left out has more.
pub proof fn hubs_are_the_most_linked(store: DbView, limit: int)
    requires
        limit >= 0,
    ensures
        are_hubs(store, limit, db::limited(report::hubs(store), limit)),
{
    let n = store.nodes.len() as int;
    let found = report::connected(store, n);
    let all = linked_places(store, n);
    let keys = traverse::degrees(found);
    let r = order::the_order(found.len() as int, order::by_key_desc(keys));
    let full = report::hubs(store);
    let some = db::limited(full, limit);
    lemma_linked_places(store, n);
    order::sorting_is_stable(found, keys);
    order::lemma_indices_once(r, found.len() as int);
    let places = Seq::new(some.len(), |k: int| all[r[k]]);
    assert forall|a: int| 0 <= a < places.len() implies 0 <= #[trigger] places[a] < n && links_at(
        store,
        store.nodes[places[a]],
    ) > 0 && some[a] == (store.nodes[places[a]], links_at(store, store.nodes[places[a]])) && keys[r[a]]
        == links_at(store, store.nodes[places[a]]) by {
        assert(0 <= r[a] < found.len());
        assert(all[r[a]] < n);
        assert(some[a] == full[a]);
    }
    assert(places.no_duplicates()) by {
        assert forall|a: int, b: int|
            0 <= a < places.len() && 0 <= b < places.len() && a != b implies places[a]
            != places[b] by {
            assert(0 <= r[a] < found.len() && 0 <= r[b] < found.len());
            assert(r[a] != r[b]);
            if r[a] < r[b] {
                assert(all[r[a]] < all[r[b]]);
            } else {
                assert(all[r[b]] < all[r[a]]);
            }
        }
    }
    assert forall|a: int, b: int| 0 <= a < b < places.len() implies links_at(
        store,
        store.nodes[#[trigger] places[a]],
    ) >= links_at(store, store.nodes[#[trigger] places[b]]) by {
        assert(keys[r[a]] >= keys[r[b]]);
    }
    assert forall|i: int|
        0 <= i < store.nodes.len() && links_at(store, #[trigger] store.nodes[i]) > 0
            && !places.contains(i) implies places.len() == limit && forall|a: int|
        0 <= a < places.len() ==> links_at(store, store.nodes[#[trigger] places[a]]) >= links_at(
            store,
            store.nodes[i],
        ) by {
        assert(all.contains(i));
        let m = choose|m: int| 0 <= m < all.len() && all[m] == i;
        assert(r.contains(m));
        let k = choose|k: int| 0 <= k < r.len() && r[k] == m;
        if k < some.len() {
            assert(places[k] == i);
        }
        assert(keys[m] == links_at(store, store.nodes[i])) by {
            assert(all[m] < n);
        }
        assert forall|a: int| 0 <= a < places.len() implies links_at(
            store,
            store.nodes[#[trigger] places[a]],
        ) >= links_at(store, store.nodes[i]) by {
            assert(keys[r[a]] >= keys[r[k]]);
        }
    }
    assert(are_hub_places(store, limit, places));
}

// ---------------------------------------------------------------------------
// Paths
// ---------------------------------------------------------------------------

/// The weights of some edges together.
pub open spec fn weight_of(edges: Seq<EdgeView>, picked: Seq<int>) -> nat
    decreases picked.len(),
{
    if picked.len() == 0 {
        0
    } else {
        weight_of(edges, picked.drop_last()) + edges[picked.last()].weight as nat
    }
}

/// Whether some edges lead along the identifiers, from each to the next, in either
/// direction.
pub open spec fn leads_along(edges: Seq<EdgeView>, picked: Seq<int>, ids: Seq<Seq<char>>) -> bool {
    &&& ids.len() == picked.len() + 1
    &&& forall|k: int|
        0 <= k < picked.len() ==> 0 <= #[trigger] picked[k] < edges.len() && ((edges[picked[k]].source
            == ids[k] && edges[picked[k]].target == ids[k + 1]) || (edges[picked[k]].source == ids[k
            + 1] && edges[picked[k]].target == ids[k]))
}

/// The identifiers on a path.
pub open spec fn ids_on(hops: Seq<(NodeView, Seq<char>)>) -> Seq<Seq<char>> {
    Seq::new(hops.len(), |k: int| hops[k].0.id)
}

/// Whether the hops follow edges from one node to the other: each shows a node as it is
/// stored and names the relation of the edge that leads there, and no other edges that
/// lead from the one to the other weigh less together.
pub open spec fn is_lightest_path(
    store: DbView,
    from: Seq<char>,
    to: Seq<char>,
    hops: Seq<(NodeView, Seq<char>)>,
    picked: Seq<int>,
) -> bool {
    &&& hops.len() > 0
    &&& hops[0].0.id == from
    &&& hops[0].1.len() == 0
    &&& hops.last().0.id == to
    &&& leads_along(store.edges, picked, ids_on(hops))
    &&& forall|k: int|
        0 <= k < picked.len() ==> hops[k + 1].1 == store.edges[#[trigger] picked[k]].relation
    &&& forall|k: int|
        0 <= k < hops.len() ==> traverse::is_held(store.nodes, (#[trigger] hops[k]).0) || (
        !traverse::is_stored(store.nodes, hops[k].0.id) && hops[k].0.label == hops[k].0.id)
    &&& forall|other: Seq<int>, ids: Seq<Seq<char>>| #[trigger]
        leads_along(store.edges, other, ids) && ids[0] == from && ids.last() == to ==> weight_of(
            store.edges,
            picked,
        ) <= weight_of(store.edges, other)
}

/// The steps along some edges.
spec fn steps_along(picked: Seq<int>, ids: Seq<Seq<char>>) -> Seq<Step> {
    Seq::new(picked.len(), |k: int| Step { edge: picked[k], to: ids[k + 1] })
}

/// The edges of a walk.
spec fn edges_on(steps: Seq<Step>) -> Seq<int> {
    Seq::new(steps.len(), |k: int| steps[k].edge)
}

/// A walk leads along its edges, and weighs what they weigh together.
proof fn lemma_walk_along(edges: Seq<EdgeView>, from: Seq<char>, steps: Seq<Step>)
    requires
        path::is_walk(edges, from, steps),
    ensures
        ({
            let ids = Seq::new(
                steps.len() + 1,
                |k: int|
                    if k == 0 {
                        from
                    } else {
                        steps[k - 1].to
                    },
            );
            leads_along(edges, edges_on(steps), ids)
        }),
        weight_of(edges, edges_on(steps)) == path::walk_cost(edges, steps),
    decreases steps.len(),
{
    let picked = edges_on(steps);
    if steps.len() > 0 {
        let front = steps.drop_last();
        lemma_walk_along(edges, from, front);
        let before = edges_on(front);
        assert(picked.drop_last() =~= before);
        let ids = Seq::new(
            steps.len() + 1,
            |k: int|
                if k == 0 {
                    from
                } else {
                    steps[k - 1].to
                },
        );
        assert forall|k: int| 0 <= k < picked.len() implies 0 <= #[trigger] picked[k] < edges.len()
            && ((edges[picked[k]].source == ids[k] && edges[picked[k]].target == ids[k + 1]) || (
        edges[picked[k]].source == ids[k + 1] && edges[picked[k]].target == ids[k])) by {
            if k < before.len() {
                assert(picked[k] == before[k]);
            }
        }
    }
}

/// Edges that lead along identifiers make a walk.
proof fn lemma_along_walk(edges: Seq<EdgeView>, picked: Seq<int>, ids: Seq<Seq<char>>)
    requires
        leads_along(edges, picked, ids),
    ensures
        path::leads(edges, ids[0], ids.last(), steps_along(picked, ids)),
        path::walk_cost(edges, steps_along(picked, ids)) == weight_of(edges, picked),
    decreases picked.len(),
{
    let steps = steps_along(picked, ids);
    if picked.len() > 0 {
        let fewer = picked.drop_last();
        let front = ids.drop_last();
        assert(leads_along(edges, fewer, front)) by {
            assert forall|k: int| 0 <= k < fewer.len() implies 0 <= #[trigger] fewer[k]
                < edges.len() && ((edges[fewer[k]].source == front[k] && edges[fewer[k]].target
                == front[k + 1]) || (edges[fewer[k]].source == front[k + 1]
                && edges[fewer[k]].target == front[k])) by {
                assert(fewer[k] == picked[k]);
            }
        }
        lemma_along_walk(edges, fewer, front);
        assert(steps.drop_last() =~= steps_along(fewer, front));
        assert(picked[picked.len() - 1] == picked.last());
        assert(front.last() == ids[ids.len() - 2]);
    } else {
        assert(steps =~= Seq::empty());
    }
}

/// A shortest path follows edges from one node to the other, shows the nodes on it and
/// the relations between them, and weighs least.
pub proof fn shortest_paths_follow_the_lightest_edges(
    store: DbView,
    from: Seq<char>,
    to: Seq<char>,
    hops: Seq<(NodeView, Seq<char>)>,
)
    requires
        path::is_shortest_path(store, from, to, hops),
    ensures
        exists|picked: Seq<int>| #[trigger] is_lightest_path(store, from, to, hops, picked),
{
    let steps = choose|steps: Seq<Step>| #[trigger]
        path::is_cheapest(store.edges, from, to, steps) && hops == path::hops_of(
            store,
            from,
            steps,
        );
    let picked = edges_on(steps);
    lemma_walk_along(store.edges, from, steps);
    assert forall|id: Seq<char>| (#[trigger] path::shown(store, id)).id == id && (
    traverse::is_held(store.nodes, path::shown(store, id)) || (!traverse::is_stored(store.nodes, id)
        && path::shown(store, id).label == id)) by {
        traverse::lemma_has_node(store, id);
    }
    assert(hops[0] == (path::shown(store, from), Seq::<char>::empty()));
    assert forall|k: int| 1 <= k < hops.len() implies #[trigger] hops[k] == (
        path::shown(store, steps[k - 1].to),
        store.edges[steps[k - 1].edge].relation,
    ) by {}
    let ids = Seq::new(
        steps.len() + 1,
        |k: int|
            if k == 0 {
                from
            } else {
                steps[k - 1].to
            },
    );
    assert(ids_on(hops) =~= ids) by {
        assert forall|k: int| 0 <= k < hops.len() implies ids_on(hops)[k] == ids[k] by {
            if k == 0 {
                assert(path::shown(store, from).id == from);
            } else {
                assert(path::shown(store, steps[k - 1].to).id == steps[k - 1].to);
            }
        }
    }
    assert forall|k: int| 0 <= k < picked.len() implies hops[k + 1].1
        == store.edges[#[trigger] picked[k]].relation by {
        assert(hops[k + 1].1 == store.edges[steps[k].edge].relation);
    }
    assert forall|k: int| 0 <= k < hops.len() implies traverse::is_held(
        store.nodes,
        (#[trigger] hops[k]).0,
    ) || (!traverse::is_stored(store.nodes, hops[k].0.id) && hops[k].0.label == hops[k].0.id) by {
        if k == 0 {
            assert(path::shown(store, from).id == from);
        } else {
            assert(path::shown(store, steps[k - 1].to).id == steps[k - 1].to);
        }
    }
    assert forall|other: Seq<int>, via: Seq<Seq<char>>| #[trigger]
        leads_along(store.edges, other, via) && via[0] == from && via.last() == to implies weight_of(
        store.edges,
        picked,
    ) <= weight_of(store.edges, other) by {
        lemma_along_walk(store.edges, other, via);
        assert(path::leads(store.edges, from, to, steps_along(other, via)));
    }
    assert(hops.last().0.id == to) by {
        if steps.len() == 0 {
            assert(path::shown(store, from).id == from);
        } else {
            assert(path::shown(store, steps.last().to).id == steps.last().to);
        }
    }
    assert(is_lightest_path(store, from, to, hops, picked));
}

/// Whether the hops are a lightest path between the nodes that match two labels best.
pub open spec fn is_path_between(
    store: DbView,
    from_label: Seq<char>,
    to_label: Seq<char>,
    hops: Seq<(NodeView, Seq<char>)>,
) -> bool {
    exists|from: Seq<char>, to: Seq<char>, picked: Seq<int>|
        is_best_match(store.nodes, from_label, Some(from)) && is_best_match(
            store.nodes,
            to_label,
            Some(to),
        ) && #[trigger] is_lightest_path(store, from, to, hops, picked)
}

/// Whether no edges lead from one identifier to another.
pub open spec fn is_apart(store: DbView, from: Seq<char>, to: Seq<char>) -> bool {
    forall|other: Seq<int>, ids: Seq<Seq<char>>| #[trigger]
        leads_along(store.edges, other, ids) ==> !(ids[0] == from && ids.last() == to)
}

/// Whether no edges lead between the nodes that match two labels best.
pub open spec fn are_apart(store: DbView, from_label: Seq<char>, to_label: Seq<char>) -> bool {
    exists|from: Seq<char>, to: Seq<char>|
        is_best_match(store.nodes, from_label, Some(from)) && is_best_match(
            store.nodes,
            to_label,
            Some(to),
        ) && #[trigger] is_apart(store, from, to)
}

/// A shortest path between the nodes that match two labels best is a lightest one.
pub proof fn paths_lead_between_the_best_matches(
    store: DbView,
    from_label: Seq<char>,
    to_label: Seq<char>,
    from: Seq<char>,
    to: Seq<char>,
    hops: Seq<(NodeView, Seq<char>)>,
)
    requires
        is_best_match(store.nodes, from_label, Some(from)),
        is_best_match(store.nodes, to_label, Some(to)),
        path::is_shortest_path(store, from, to, hops),
    ensures
        is_path_between(store, from_label, to_label, hops),
{
    shortest_paths_follow_the_lightest_edges(store, from, to, hops);
    let picked = choose|picked: Seq<int>| #[trigger]
        is_lightest_path(store, from, to, hops, picked);
    assert(is_lightest_path(store, from, to, hops, picked));
}

/// Where no walk leads from one node to another, no edges do.
pub proof fn nodes_without_a_path_are_apart(
    store: DbView,
    from_label: Seq<char>,
    to_label: Seq<char>,
    from: Seq<char>,
    to: Seq<char>,
)
    requires
        is_best_match(store.nodes, from_label, Some(from)),
        is_best_match(store.nodes, to_label, Some(to)),
        forall|steps: Seq<Step>| !#[trigger] path::leads(store.edges, from, to, steps),
    ensures
        are_apart(store, from_label, to_label),
{
    assert forall|other: Seq<int>, ids: Seq<Seq<char>>| #[trigger]
        leads_along(store.edges, other, ids) implies !(ids[0] == from && ids.last() == to) by {
        lemma_along_walk(store.edges, other, ids);
    }
    assert(is_apart(store, from, to));
}

} // verus!
