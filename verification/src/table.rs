//! Rows in order, and the searches over them: what the tables of the store are
//! made of.

use vstd::prelude::*;

verus! {

/// The contents of a list of rows.
pub open spec fn rows<T: View>(v: Seq<T>) -> Seq<T::V> {
    Seq::new(v.len(), |i: int| v[i]@)
}

/// The least index at or after `i` of a row with the property.
pub open spec fn first_from<V>(s: Seq<V>, p: spec_fn(V) -> bool, i: int) -> Option<int>
    decreases s.len() - i,
{
    if i < 0 || i >= s.len() {
        None
    } else if p(s[i]) {
        Some(i)
    } else {
        first_from(s, p, i + 1)
    }
}

/// The index of the first row with the property.
pub open spec fn first_where<V>(s: Seq<V>, p: spec_fn(V) -> bool) -> Option<int> {
    first_from(s, p, 0)
}

/// How many rows have the property.
pub open spec fn count_where<V>(s: Seq<V>, p: spec_fn(V) -> bool) -> nat {
    s.filter(p).len()
}

/// Whether some row has the property.
pub open spec fn any_where<V>(s: Seq<V>, p: spec_fn(V) -> bool) -> bool {
    exists|i: int| 0 <= i < s.len() && p(#[trigger] s[i])
}

/// The rows without those that equal an earlier one.
pub open spec fn distinct<V>(s: Seq<V>) -> Seq<V>
    decreases s.len(),
{
    if s.len() == 0 {
        s
    } else if s.drop_last().contains(s.last()) {
        distinct(s.drop_last())
    } else {
        distinct(s.drop_last()).push(s.last())
    }
}

/// `distinct` keeps each row once.
pub proof fn lemma_distinct<V>(s: Seq<V>)
    ensures
        distinct(s).no_duplicates(),
        forall|x: V| #[trigger] distinct(s).contains(x) == s.contains(x),
    decreases s.len(),
{
    if s.len() > 0 {
        let front = s.drop_last();
        lemma_distinct(front);
        let kept = distinct(front);
        assert forall|x: V| #[trigger] distinct(s).contains(x) == s.contains(x) by {
            assert(kept.contains(x) == front.contains(x));
            if s.contains(x) {
                let i = choose|i: int| 0 <= i < s.len() && s[i] == x;
                if i < front.len() {
                    assert(front[i] == x);
                }
                if front.contains(x) {
                    let k = choose|k: int| 0 <= k < kept.len() && kept[k] == x;
                    assert(distinct(s)[k] == x);
                } else {
                    assert(distinct(s)[kept.len() as int] == x);
                }
            }
            if distinct(s).contains(x) {
                let k = choose|k: int| 0 <= k < distinct(s).len() && distinct(s)[k] == x;
                if k < kept.len() {
                    assert(kept[k] == x);
                    let i = choose|i: int| 0 <= i < front.len() && front[i] == x;
                    assert(s[i] == x);
                } else {
                    assert(s[s.len() - 1] == x);
                }
            }
        }
        if !front.contains(s.last()) {
            assert(!kept.contains(s.last()));
            assert(distinct(s) == kept.push(s.last()));
        }
    }
}

/// `first_from` gives the first row with the property, if there is any.
pub proof fn lemma_first_from<V>(s: Seq<V>, p: spec_fn(V) -> bool, i: int)
    requires
        0 <= i,
    ensures
        match first_from(s, p, i) {
            Some(k) => i <= k < s.len() && p(s[k]) && forall|j: int|
                i <= j < k ==> !p(#[trigger] s[j]),
            None => forall|j: int| i <= j < s.len() ==> !p(#[trigger] s[j]),
        },
    decreases s.len() - i,
{
    if i < s.len() && !p(s[i]) {
        lemma_first_from(s, p, i + 1);
    }
}

/// A row at a given place with nothing before it is the first.
pub proof fn lemma_is_first<V>(s: Seq<V>, p: spec_fn(V) -> bool, k: int)
    requires
        0 <= k < s.len(),
        p(s[k]),
        forall|j: int| 0 <= j < k ==> !p(#[trigger] s[j]),
    ensures
        first_where(s, p) == Some(k),
{
    lemma_first_from(s, p, 0);
}

/// The filtered rows are those with the property; each is one of the rows.
pub proof fn lemma_filter_holds<V>(s: Seq<V>, p: spec_fn(V) -> bool)
    ensures
        forall|i: int| 0 <= i < s.filter(p).len() ==> p(#[trigger] s.filter(p)[i]),
        forall|x: V| #[trigger] s.filter(p).contains(x) <==> s.contains(x) && p(x),
    decreases s.len(),
{
    reveal(Seq::filter);
    if s.len() > 0 {
        let front = s.drop_last();
        lemma_filter_holds(front, p);
        assert forall|i: int| 0 <= i < s.filter(p).len() implies p(#[trigger] s.filter(p)[i]) by {
            if i < front.filter(p).len() {
                assert(s.filter(p)[i] == front.filter(p)[i]);
            }
        }
        assert forall|x: V| #[trigger] s.filter(p).contains(x) <==> s.contains(x) && p(x) by {
            if s.filter(p).contains(x) {
                let i = choose|i: int| 0 <= i < s.filter(p).len() && s.filter(p)[i] == x;
                if i < front.filter(p).len() {
                    assert(front.filter(p)[i] == x);
                    assert(front.filter(p).contains(x));
                    let k = choose|k: int| 0 <= k < front.len() && front[k] == x;
                    assert(s[k] == x);
                } else {
                    assert(s[s.len() - 1] == x);
                }
            }
            if s.contains(x) && p(x) {
                let k = choose|k: int| 0 <= k < s.len() && s[k] == x;
                if k < front.len() {
                    assert(front[k] == x);
                    assert(front.contains(x));
                    assert(front.filter(p).contains(x));
                    let i = choose|i: int|
                        0 <= i < front.filter(p).len() && front.filter(p)[i] == x;
                    assert(s.filter(p)[i] == x);
                } else {
                    assert(s.filter(p)[s.filter(p).len() - 1] == x);
                }
            }
        }
    }
}

/// Filtering leaves alone rows that all have the property.
pub proof fn lemma_filter_all<V>(s: Seq<V>, p: spec_fn(V) -> bool)
    requires
        forall|i: int| 0 <= i < s.len() ==> p(#[trigger] s[i]),
    ensures
        s.filter(p) == s,
    decreases s.len(),
{
    reveal(Seq::filter);
    if s.len() > 0 {
        lemma_filter_all(s.drop_last(), p);
        assert(s.drop_last().push(s.last()) =~= s);
    }
}

/// Filtering a longer list.
pub proof fn lemma_filter_push<V>(s: Seq<V>, x: V, p: spec_fn(V) -> bool)
    ensures
        s.push(x).filter(p) == if p(x) {
            s.filter(p).push(x)
        } else {
            s.filter(p)
        },
{
    reveal(Seq::filter);
    assert(s.push(x).drop_last() =~= s);
}

/// There is a first row with a property iff some row has it.
pub proof fn lemma_any_first<V>(s: Seq<V>, p: spec_fn(V) -> bool)
    ensures
        any_where(s, p) == (first_where(s, p) is Some),
{
    lemma_first_from(s, p, 0);
    if let Some(k) = first_where(s, p) {
        assert(p(s[k]));
    }
}

/// Filtering removes rows none of which has the property.
pub proof fn lemma_filter_none<V>(s: Seq<V>, p: spec_fn(V) -> bool)
    requires
        forall|i: int| 0 <= i < s.len() ==> !p(#[trigger] s[i]),
    ensures
        s.filter(p) == Seq::<V>::empty(),
    decreases s.len(),
{
    reveal(Seq::filter);
    if s.len() > 0 {
        lemma_filter_none(s.drop_last(), p);
    }
}

/// Rows that have one of two properties, and never both, are counted apart.
pub proof fn lemma_count_split<V>(
    s: Seq<V>,
    p: spec_fn(V) -> bool,
    q: spec_fn(V) -> bool,
    r: spec_fn(V) -> bool,
)
    requires
        forall|i: int| 0 <= i < s.len() ==> (#[trigger] r(s[i]) <==> p(s[i]) || q(s[i])),
        forall|i: int| 0 <= i < s.len() ==> !(#[trigger] p(s[i]) && q(s[i])),
    ensures
        count_where(s, r) == count_where(s, p) + count_where(s, q),
    decreases s.len(),
{
    reveal(Seq::filter);
    if s.len() > 0 {
        let front = s.drop_last();
        let last = s.len() - 1;
        assert forall|i: int| 0 <= i < front.len() implies (#[trigger] r(front[i]) <==> p(front[i])
            || q(front[i])) by {
            assert(r(s[i]) <==> p(s[i]) || q(s[i]));
        }
        assert forall|i: int| 0 <= i < front.len() implies !(#[trigger] p(front[i]) && q(
            front[i],
        )) by {
            assert(!(p(s[i]) && q(s[i])));
        }
        lemma_count_split(front, p, q, r);
        assert(r(s[last]) <==> p(s[last]) || q(s[last]));
        assert(!(p(s[last]) && q(s[last])));
    }
}

/// Whether every two rows stand in the relation, the earlier one first.
pub open spec fn pairwise<V>(s: Seq<V>, r: spec_fn(V, V) -> bool) -> bool {
    forall|i: int, j: int| 0 <= i < j < s.len() ==> r(#[trigger] s[i], #[trigger] s[j])
}

/// Filtering keeps a relation between every two rows.
pub proof fn lemma_pairwise_filter<V>(s: Seq<V>, r: spec_fn(V, V) -> bool, p: spec_fn(V) -> bool)
    requires
        pairwise(s, r),
    ensures
        pairwise(s.filter(p), r),
    decreases s.len(),
{
    reveal(Seq::filter);
    if s.len() > 0 {
        let front = s.drop_last();
        assert(pairwise(front, r)) by {
            assert forall|i: int, j: int| 0 <= i < j < front.len() implies r(
                #[trigger] front[i],
                #[trigger] front[j],
            ) by {
                assert(r(s[i], s[j]));
            }
        }
        lemma_pairwise_filter(front, r, p);
        lemma_filter_holds(front, p);
        let kept = front.filter(p);
        assert forall|i: int, j: int| 0 <= i < j < s.filter(p).len() implies r(
            #[trigger] s.filter(p)[i],
            #[trigger] s.filter(p)[j],
        ) by {
            assert(s.filter(p)[i] == kept[i]);
            if j < kept.len() {
                assert(s.filter(p)[j] == kept[j]);
            } else {
                assert(kept.contains(kept[i]));
                let k = choose|k: int| 0 <= k < front.len() && front[k] == kept[i];
                assert(r(s[k], s[s.len() - 1]));
            }
        }
    }
}

/// Whether `places` lists, in order, the places of exactly the rows with the property.
pub open spec fn are_places<V>(s: Seq<V>, p: spec_fn(V) -> bool, places: Seq<int>) -> bool {
    &&& forall|a: int, b: int| 0 <= a < b < places.len() ==> places[a] < places[b]
    &&& forall|a: int|
        0 <= a < places.len() ==> 0 <= #[trigger] places[a] < s.len() && p(s[places[a]])
    &&& forall|i: int| 0 <= i < s.len() && p(#[trigger] s[i]) ==> places.contains(i)
}

/// The places of the rows with the property.
pub proof fn lemma_filter_places<V>(s: Seq<V>, p: spec_fn(V) -> bool) -> (places: Seq<int>)
    ensures
        are_places(s, p, places),
        s.filter(p).len() == places.len(),
        forall|a: int| 0 <= a < places.len() ==> s.filter(p)[a] == s[#[trigger] places[a]],
    decreases s.len(),
{
    reveal(Seq::filter);
    if s.len() == 0 {
        Seq::empty()
    } else {
        let front = s.drop_last();
        let last = s.len() - 1;
        let before = lemma_filter_places(front, p);
        let places = if p(s[last]) {
            before.push(last)
        } else {
            before
        };
        assert forall|a: int| 0 <= a < places.len() implies 0 <= #[trigger] places[a] < s.len() && p(
            s[places[a]],
        ) && s.filter(p)[a] == s[places[a]] by {
            if a < before.len() {
                assert(places[a] == before[a]);
                assert(front[before[a]] == s[before[a]]);
            }
        }
        assert forall|a: int, b: int| 0 <= a < b < places.len() implies places[a] < places[b] by {
            assert(places[a] == before[a]);
            if b < before.len() {
                assert(places[b] == before[b]);
            }
        }
        assert forall|i: int| 0 <= i < s.len() && p(#[trigger] s[i]) implies places.contains(i) by {
            if i < last {
                assert(p(front[i]));
                assert(before.contains(i));
                let a = choose|a: int| 0 <= a < before.len() && before[a] == i;
                assert(places[a] == i);
            } else {
                assert(places.last() == i);
            }
        }
        places
    }
}

/// Rows with one property are those with another that means the same.
pub proof fn lemma_filter_same<V>(s: Seq<V>, p: spec_fn(V) -> bool, q: spec_fn(V) -> bool)
    requires
        forall|x: V| #[trigger] p(x) == q(x),
    ensures
        s.filter(p) == s.filter(q),
    decreases s.len(),
{
    reveal(Seq::filter);
    if s.len() > 0 {
        lemma_filter_same(s.drop_last(), p, q);
        assert(p(s.last()) == q(s.last()));
    }
}

/// The index of the first row that passes the test.
pub(crate) fn find_row<T: View, F: Fn(&T) -> bool>(
    v: &Vec<T>,
    test: F,
    Ghost(p): Ghost<spec_fn(T::V) -> bool>,
) -> (r: Option<usize>)
    requires
        forall|x: &T| #[trigger] test.requires((x,)),
        forall|x: &T, b: bool| #[trigger] test.ensures((x,), b) ==> b == p(x@),
    ensures
        match (r, first_where(rows(v@), p)) {
            (Some(a), Some(b)) => a == b && a < v@.len(),
            (None, None) => true,
            _ => false,
        },
{
    let n: usize = v.len();
    let mut i: usize = 0;
    while i < n
        invariant
            i <= n == v@.len(),
            forall|x: &T| #[trigger] test.requires((x,)),
            forall|x: &T, b: bool| #[trigger] test.ensures((x,), b) ==> b == p(x@),
            first_where(rows(v@), p) == first_from(rows(v@), p, i as int),
        decreases n - i,
    {
        if test(&v[i]) {
            return Some(i);
        }
        i += 1;
    }
    None
}

/// How many rows pass the test.
pub(crate) fn count_rows<T: View, F: Fn(&T) -> bool>(
    v: &Vec<T>,
    test: F,
    Ghost(p): Ghost<spec_fn(T::V) -> bool>,
) -> (r: usize)
    requires
        forall|x: &T| #[trigger] test.requires((x,)),
        forall|x: &T, b: bool| #[trigger] test.ensures((x,), b) ==> b == p(x@),
    ensures
        r == count_where(rows(v@), p),
        r <= v@.len(),
{
    let ghost all = rows(v@);
    let n: usize = v.len();
    let mut count: usize = 0;
    let mut i: usize = 0;
    proof {
        reveal(Seq::filter);
        assert(all.take(0).filter(p) =~= Seq::empty());
    }
    while i < n
        invariant
            i <= n == v@.len(),
            all == rows(v@),
            forall|x: &T| #[trigger] test.requires((x,)),
            forall|x: &T, b: bool| #[trigger] test.ensures((x,), b) ==> b == p(x@),
            count == all.take(i as int).filter(p).len(),
            count <= i,
        decreases n - i,
    {
        proof {
            lemma_filter_push(all.take(i as int), all[i as int], p);
            assert(all.take(i + 1) =~= all.take(i as int).push(all[i as int]));
        }
        if test(&v[i]) {
            count += 1;
        }
        i += 1;
    }
    assert(all.take(n as int) =~= all);
    count
}

/// The indices of the rows that pass the test, in order.
pub(crate) fn select_rows<T: View, F: Fn(&T) -> bool>(
    v: &Vec<T>,
    test: F,
    Ghost(p): Ghost<spec_fn(T::V) -> bool>,
) -> (r: Vec<usize>)
    requires
        forall|x: &T| #[trigger] test.requires((x,)),
        forall|x: &T, b: bool| #[trigger] test.ensures((x,), b) ==> b == p(x@),
    ensures
        forall|k: int| 0 <= k < r@.len() ==> (#[trigger] r@[k]) < v@.len(),
        Seq::new(r@.len(), |k: int| rows(v@)[r@[k] as int]) == rows(v@).filter(p),
{
    let ghost all = rows(v@);
    let n: usize = v.len();
    let mut out: Vec<usize> = Vec::new();
    let mut i: usize = 0;
    proof {
        reveal(Seq::filter);
        assert(all.take(0).filter(p) =~= Seq::empty());
        assert(Seq::new(out@.len(), |k: int| all[out@[k] as int]) =~= Seq::empty());
    }
    while i < n
        invariant
            i <= n == v@.len(),
            all == rows(v@),
            forall|x: &T| #[trigger] test.requires((x,)),
            forall|x: &T, b: bool| #[trigger] test.ensures((x,), b) ==> b == p(x@),
            forall|k: int| 0 <= k < out@.len() ==> (#[trigger] out@[k]) < i,
            Seq::new(out@.len(), |k: int| all[out@[k] as int]) == all.take(i as int).filter(p),
        decreases n - i,
    {
        proof {
            lemma_filter_push(all.take(i as int), all[i as int], p);
            assert(all.take(i + 1) =~= all.take(i as int).push(all[i as int]));
        }
        if test(&v[i]) {
            let ghost before = out@;
            out.push(i);
            assert(Seq::new(out@.len(), |k: int| all[out@[k] as int]) =~= Seq::new(
                before.len(),
                |k: int| all[before[k] as int],
            ).push(all[i as int]));
        }
        i += 1;
    }
    assert(all.take(n as int) =~= all);
    out
}

/// Keeps the rows that pass the test.
pub(crate) fn keep_rows<T: View, F: Fn(&T) -> bool>(
    v: &mut Vec<T>,
    test: F,
    Ghost(p): Ghost<spec_fn(T::V) -> bool>,
)
    requires
        forall|x: &T| #[trigger] test.requires((x,)),
        forall|x: &T, b: bool| #[trigger] test.ensures((x,), b) ==> b == p(x@),
    ensures
        rows(final(v)@) == rows(old(v)@).filter(p),
{
    let ghost all = rows(v@);
    let mut kept: Vec<T> = Vec::new();
    assert(all.filter(p) + rows(kept@).reverse() =~= all.filter(p));
    while v.len() > 0
        invariant
            forall|x: &T| #[trigger] test.requires((x,)),
            forall|x: &T, b: bool| #[trigger] test.ensures((x,), b) ==> b == p(x@),
            rows(v@).filter(p) + rows(kept@).reverse() == all.filter(p),
        decreases v@.len(),
    {
        let ghost before = v@;
        let ghost had = kept@;
        match v.pop() {
            Some(row) => {
                assert(rows(before) =~= rows(v@).push(row@));
                proof {
                    lemma_filter_push(rows(v@), row@, p);
                }
                if test(&row) {
                    kept.push(row);
                    assert(rows(kept@).reverse() =~= seq![row@] + rows(had).reverse());
                    assert(rows(before).filter(p) + rows(had).reverse() =~= rows(v@).filter(p)
                        + rows(kept@).reverse());
                }
            },
            None => {},
        }
    }
    proof {
        reveal(Seq::filter);
        assert(rows(v@) =~= Seq::empty());
        assert(rows(v@).filter(p) =~= Seq::empty());
    }
    assert(rows(v@) + rows(kept@).reverse() =~= all.filter(p));
    while kept.len() > 0
        invariant
            rows(v@) + rows(kept@).reverse() == all.filter(p),
        decreases kept@.len(),
    {
        let ghost before = kept@;
        let ghost had = v@;
        match kept.pop() {
            Some(row) => {
                v.push(row);
                assert(rows(v@) + rows(kept@).reverse() =~= rows(had) + rows(before).reverse());
            },
            None => {},
        }
    }
    assert(rows(v@) + rows(kept@).reverse() =~= rows(v@));
}

} // verus!
