//! Stable sorting: the order in which rows stand when they are sorted by a key.

use vstd::prelude::*;

use crate::text;

verus! {

/// Whether `before` is a strict total order of the indices below `n`.
pub open spec fn is_total(n: int, before: spec_fn(int, int) -> bool) -> bool {
    &&& forall|i: int| 0 <= i < n ==> !#[trigger] before(i, i)
    &&& forall|i: int, j: int|
        0 <= i < n && 0 <= j < n && i != j ==> #[trigger] before(i, j) || before(j, i)
    &&& forall|i: int, j: int, k: int|
        0 <= i < n && 0 <= j < n && 0 <= k < n && #[trigger] before(i, j) && #[trigger] before(j, k)
            ==> before(i, k)
}

/// Whether `r` lists indices in increasing order.
pub open spec fn is_increasing(r: Seq<int>, before: spec_fn(int, int) -> bool) -> bool {
    forall|a: int, b: int| 0 <= a < b < r.len() ==> before(#[trigger] r[a], #[trigger] r[b])
}

/// Whether `r` lists exactly the indices from `lo` to below `hi`.
pub open spec fn covers(r: Seq<int>, lo: int, hi: int) -> bool {
    &&& r.len() == hi - lo
    &&& forall|k: int| 0 <= k < r.len() ==> lo <= #[trigger] r[k] < hi
    &&& forall|i: int| lo <= i < hi ==> #[trigger] r.contains(i)
}

/// Whether `r` lists all indices below `n` in increasing order.
pub open spec fn is_order(n: int, r: Seq<int>, before: spec_fn(int, int) -> bool) -> bool {
    covers(r, 0, n) && is_increasing(r, before)
}

/// `r` with `x` put before those that come after it.
pub open spec fn placed(r: Seq<int>, x: int, before: spec_fn(int, int) -> bool) -> Seq<int>
    decreases r.len(),
{
    if r.len() > 0 && before(x, r.last()) {
        placed(r.drop_last(), x, before).push(r.last())
    } else {
        r.push(x)
    }
}

/// The indices below `n` in increasing order.
pub open spec fn the_order(n: int, before: spec_fn(int, int) -> bool) -> Seq<int>
    decreases n,
{
    if n <= 0 {
        Seq::empty()
    } else {
        placed(the_order(n - 1, before), n - 1, before)
    }
}

/// The rows at the given indices.
pub open spec fn arranged<V>(s: Seq<V>, r: Seq<int>) -> Seq<V> {
    Seq::new(r.len(), |k: int| s[r[k]])
}

/// Greater keys come first; rows with equal keys keep their order.
pub open spec fn by_key_desc(keys: Seq<int>) -> spec_fn(int, int) -> bool {
    |i: int, j: int| keys[i] > keys[j] || (keys[i] == keys[j] && i < j)
}

/// Lesser texts come first; rows with equal texts keep their order.
pub open spec fn by_text(keys: Seq<Seq<char>>) -> spec_fn(int, int) -> bool {
    |i: int, j: int| text::lex_less(keys[i], keys[j]) || (keys[i] == keys[j] && i < j)
}

/// The rows sorted by descending keys, stably.
pub open spec fn sorted_desc<V>(s: Seq<V>, keys: Seq<int>) -> Seq<V> {
    arranged(s, the_order(s.len() as int, by_key_desc(keys)))
}

/// The rows sorted by ascending texts, stably.
pub open spec fn sorted_by_text<V>(s: Seq<V>, keys: Seq<Seq<char>>) -> Seq<V> {
    arranged(s, the_order(s.len() as int, by_text(keys)))
}

/// Indices that are listed in increasing order are listed in one way only.
pub proof fn order_is_unique(
    n: int,
    a: Seq<int>,
    b: Seq<int>,
    before: spec_fn(int, int) -> bool,
)
    requires
        is_total(n, before),
        is_order(n, a, before),
        is_order(n, b, before),
    ensures
        a == b,
{
    assert forall|k: int| 0 <= k < n implies #[trigger] a[k] == b[k] by {
        lemma_same_upto(n, a, b, before, k);
    }
    assert(a =~= b);
}

proof fn lemma_same_upto(
    n: int,
    a: Seq<int>,
    b: Seq<int>,
    before: spec_fn(int, int) -> bool,
    k: int,
)
    requires
        is_total(n, before),
        is_order(n, a, before),
        is_order(n, b, before),
        0 <= k < n,
    ensures
        forall|m: int| 0 <= m <= k ==> #[trigger] a[m] == b[m],
    decreases k,
{
    if k > 0 {
        lemma_same_upto(n, a, b, before, k - 1);
    }
    if a[k] != b[k] {
        assert(b.contains(a[k]));
        let m = choose|m: int| 0 <= m < b.len() && b[m] == a[k];
        if m < k {
            assert(a[m] == b[m]);
            assert(before(a[m], a[k]));
            assert(false);
        }
        assert(before(b[k], b[m]));
        assert(a.contains(b[k]));
        let l = choose|l: int| 0 <= l < a.len() && a[l] == b[k];
        if l < k {
            assert(a[l] == b[l]);
            assert(before(b[l], b[k]));
            assert(false);
        }
        assert(before(a[k], a[l]));
        assert(before(a[k], a[k]));
        assert(false);
    }
}

/// A list stays increasing when an index is put in its place.
proof fn lemma_placed(r: Seq<int>, x: int, n: int, before: spec_fn(int, int) -> bool)
    requires
        is_total(n, before),
        is_increasing(r, before),
        0 <= x < n,
        forall|k: int| 0 <= k < r.len() ==> 0 <= #[trigger] r[k] < n && r[k] != x,
    ensures
        is_increasing(placed(r, x, before), before),
        placed(r, x, before).len() == r.len() + 1,
        forall|y: int| #[trigger] placed(r, x, before).contains(y) <==> r.contains(y) || y == x,
    decreases r.len(),
{
    let now = placed(r, x, before);
    if r.len() > 0 && before(x, r.last()) {
        let front = r.drop_last();
        let inner = placed(front, x, before);
        lemma_placed(front, x, n, before);
        assert forall|a: int, b: int| 0 <= a < b < now.len() implies before(
            #[trigger] now[a],
            #[trigger] now[b],
        ) by {
            if b == inner.len() {
                assert(inner.contains(inner[a]));
                if inner[a] != x {
                    let k = choose|k: int| 0 <= k < front.len() && front[k] == inner[a];
                    assert(before(r[k], r[r.len() - 1]));
                }
            } else {
                assert(before(inner[a], inner[b]));
            }
        }
        assert forall|y: int| #[trigger] now.contains(y) <==> r.contains(y) || y == x by {
            assert(inner.contains(y) <==> front.contains(y) || y == x);
            if now.contains(y) {
                let k = choose|k: int| 0 <= k < now.len() && now[k] == y;
                if k < inner.len() {
                    assert(inner[k] == y);
                    if front.contains(y) {
                        let j = choose|j: int| 0 <= j < front.len() && front[j] == y;
                        assert(r[j] == y);
                    }
                } else {
                    assert(r[r.len() - 1] == y);
                }
            }
            if r.contains(y) || y == x {
                if r.contains(y) {
                    let j = choose|j: int| 0 <= j < r.len() && r[j] == y;
                    if j < front.len() {
                        assert(front[j] == y);
                    } else {
                        assert(now[inner.len() as int] == y);
                    }
                }
                if inner.contains(y) {
                    let k = choose|k: int| 0 <= k < inner.len() && inner[k] == y;
                    assert(now[k] == y);
                }
            }
        }
    } else {
        assert forall|a: int, b: int| 0 <= a < b < now.len() implies before(
            #[trigger] now[a],
            #[trigger] now[b],
        ) by {
            if b == r.len() {
                assert(before(r.last(), x));
                if a < r.len() - 1 {
                    assert(before(r[a], r[r.len() - 1]));
                }
            } else {
                assert(before(r[a], r[b]));
            }
        }
        assert forall|y: int| #[trigger] now.contains(y) <==> r.contains(y) || y == x by {
            if now.contains(y) {
                let k = choose|k: int| 0 <= k < now.len() && now[k] == y;
                if k < r.len() {
                    assert(r[k] == y);
                }
            }
            if r.contains(y) {
                let k = choose|k: int| 0 <= k < r.len() && r[k] == y;
                assert(now[k] == y);
            }
            assert(now[r.len() as int] == x);
        }
    }
}

/// `the_order` lists all indices in increasing order.
pub proof fn the_order_is_an_order(n: int, before: spec_fn(int, int) -> bool)
    requires
        0 <= n,
        is_total(n, before),
    ensures
        is_order(n, the_order(n, before), before),
    decreases n,
{
    if n > 0 {
        the_order_is_an_order(n - 1, before);
        let r = the_order(n - 1, before);
        lemma_placed(r, n - 1, n, before);
        let now = the_order(n, before);
        assert forall|k: int| 0 <= k < now.len() implies 0 <= #[trigger] now[k] < n by {
            assert(now.contains(now[k]));
            if now[k] != n - 1 {
                let j = choose|j: int| 0 <= j < r.len() && r[j] == now[k];
                assert(0 <= r[j] < n - 1);
            }
        }
        assert forall|i: int| 0 <= i < n implies #[trigger] now.contains(i) by {
            if i < n - 1 {
                assert(r.contains(i));
            }
        }
    }
}

/// Sorting by descending keys is by a total order.
pub proof fn lemma_by_key_total(keys: Seq<int>)
    ensures
        is_total(keys.len() as int, by_key_desc(keys)),
{
}

/// Sorting by texts is by a total order.
pub proof fn lemma_by_text_total(keys: Seq<Seq<char>>)
    ensures
        is_total(keys.len() as int, by_text(keys)),
{
    let before = by_text(keys);
    let n = keys.len() as int;
    assert forall|i: int| 0 <= i < n implies !#[trigger] before(i, i) by {
        text::lemma_lex_less_total(keys[i], keys[i]);
    }
    assert forall|i: int, j: int| 0 <= i < n && 0 <= j < n && i != j implies #[trigger] before(i, j)
        || before(j, i) by {
        text::lemma_lex_less_total(keys[i], keys[j]);
    }
    assert forall|i: int, j: int, k: int|
        0 <= i < n && 0 <= j < n && 0 <= k < n && #[trigger] before(i, j) && #[trigger] before(
            j,
            k,
        ) implies before(i, k) by {
        if text::lex_less(keys[i], keys[j]) && text::lex_less(keys[j], keys[k]) {
            text::lemma_lex_less_transitive(keys[i], keys[j], keys[k]);
        }
    }
}

/// The indices as mathematical integers.
pub open spec fn ints(v: Seq<usize>) -> Seq<int> {
    Seq::new(v.len(), |i: int| v[i] as int)
}

/// Merges two increasing lists that together cover a range.
fn merge<F: Fn(usize, usize) -> bool>(
    left: &Vec<usize>,
    right: &Vec<usize>,
    less: &F,
    Ghost(before): Ghost<spec_fn(int, int) -> bool>,
    Ghost(lo): Ghost<int>,
    Ghost(mid): Ghost<int>,
    Ghost(hi): Ghost<int>,
    Ghost(n): Ghost<int>,
) -> (r: Vec<usize>)
    requires
        0 <= lo <= mid <= hi <= n,
        is_total(n, before),
        forall|i: usize, j: usize| i < n && j < n ==> #[trigger] less.requires((i, j)),
        forall|i: usize, j: usize, b: bool| #[trigger]
            less.ensures((i, j), b) ==> b == before(i as int, j as int),
        covers(ints(left@), lo, mid),
        covers(ints(right@), mid, hi),
        is_increasing(ints(left@), before),
        is_increasing(ints(right@), before),
        left@.len() + right@.len() <= usize::MAX,
    ensures
        covers(ints(r@), lo, hi),
        is_increasing(ints(r@), before),
{
    let ghost ls = ints(left@);
    let ghost rs = ints(right@);
    let mut out: Vec<usize> = Vec::new();
    let nl: usize = left.len();
    let nr: usize = right.len();
    let mut i: usize = 0;
    let mut j: usize = 0;
    while i < nl || j < nr
        invariant
            i <= nl == left@.len(),
            j <= nr == right@.len(),
            0 <= lo <= mid <= hi <= n,
            is_total(n, before),
            forall|i: usize, j: usize| i < n && j < n ==> #[trigger] less.requires((i, j)),
            forall|i: usize, j: usize, b: bool| #[trigger]
                less.ensures((i, j), b) ==> b == before(i as int, j as int),
            ls == ints(left@),
            rs == ints(right@),
            covers(ls, lo, mid),
            covers(rs, mid, hi),
            is_increasing(ls, before),
            is_increasing(rs, before),
            nl + nr <= usize::MAX,
            out@.len() == i + j,
            is_increasing(ints(out@), before),
            forall|k: int| 0 <= k < out@.len() ==> lo <= #[trigger] ints(out@)[k] < hi,
            forall|k: int, m: int|
                0 <= k < out@.len() && i <= m < nl ==> before(
                    #[trigger] ints(out@)[k],
                    #[trigger] ls[m],
                ),
            forall|k: int, m: int|
                0 <= k < out@.len() && j <= m < nr ==> before(
                    #[trigger] ints(out@)[k],
                    #[trigger] rs[m],
                ),
            forall|k: int| 0 <= k < i ==> ints(out@).contains(#[trigger] ls[k]),
            forall|k: int| 0 <= k < j ==> ints(out@).contains(#[trigger] rs[k]),
        decreases nl - i + nr - j,
    {
        let ghost had = ints(out@);
        let ghost i0 = i as int;
        let ghost j0 = j as int;
        assert(i < nl ==> ls[i as int] == left@[i as int]);
        assert(j < nr ==> rs[j as int] == right@[j as int]);
        let from_left: bool = if i >= nl {
            false
        } else if j >= nr {
            true
        } else {
            less(left[i], right[j])
        };
        if from_left {
            out.push(left[i]);
            assert(ints(out@) =~= had.push(ls[i0]));
            i += 1;
        } else {
            out.push(right[j]);
            assert(ints(out@) =~= had.push(rs[j0]));
            j += 1;
        }
        let ghost now = ints(out@);
        let ghost new = now.last();
        proof {
            if i0 < nl && j0 < nr {
                assert(ls[i0] != rs[j0]);
                assert(before(ls[i0], rs[j0]) || before(rs[j0], ls[i0]));
            }
            assert forall|m: int| i <= m < nl implies before(new, #[trigger] ls[m]) by {
                if !from_left && m > i0 {
                    assert(before(ls[i0], ls[m]));
                }
            }
            assert forall|m: int| j <= m < nr implies before(new, #[trigger] rs[m]) by {
                if from_left && m > j0 {
                    assert(before(rs[j0], rs[m]));
                }
            }
            assert forall|k: int| 0 <= k < i implies now.contains(#[trigger] ls[k]) by {
                if k < i0 {
                    let w = choose|w: int| 0 <= w < had.len() && had[w] == ls[k];
                    assert(now[w] == ls[k]);
                } else {
                    assert(now[now.len() - 1] == ls[k]);
                }
            }
            assert forall|k: int| 0 <= k < j implies now.contains(#[trigger] rs[k]) by {
                if k < j0 {
                    let w = choose|w: int| 0 <= w < had.len() && had[w] == rs[k];
                    assert(now[w] == rs[k]);
                } else {
                    assert(now[now.len() - 1] == rs[k]);
                }
            }
        }
    }
    assert forall|x: int| lo <= x < hi implies #[trigger] ints(out@).contains(x) by {
        if x < mid {
            assert(ls.contains(x));
            let k = choose|k: int| 0 <= k < ls.len() && ls[k] == x;
            assert(ints(out@).contains(ls[k]));
        } else {
            assert(rs.contains(x));
            let k = choose|k: int| 0 <= k < rs.len() && rs[k] == x;
            assert(ints(out@).contains(rs[k]));
        }
    }
    out
}

/// The indices from `lo` to below `hi` in increasing order.
fn sort_range<F: Fn(usize, usize) -> bool>(
    lo: usize,
    hi: usize,
    less: &F,
    Ghost(before): Ghost<spec_fn(int, int) -> bool>,
    Ghost(n): Ghost<int>,
) -> (r: Vec<usize>)
    requires
        lo <= hi <= n,
        is_total(n, before),
        forall|i: usize, j: usize| i < n && j < n ==> #[trigger] less.requires((i, j)),
        forall|i: usize, j: usize, b: bool| #[trigger]
            less.ensures((i, j), b) ==> b == before(i as int, j as int),
    ensures
        covers(ints(r@), lo as int, hi as int),
        is_increasing(ints(r@), before),
    decreases hi - lo,
{
    let mut out: Vec<usize> = Vec::new();
    if hi - lo == 0 {
        return out;
    }
    if hi - lo == 1 {
        out.push(lo);
        assert(ints(out@)[0] == lo);
        return out;
    }
    let mid: usize = lo + (hi - lo) / 2;
    let left = sort_range(lo, mid, less, Ghost(before), Ghost(n));
    let right = sort_range(mid, hi, less, Ghost(before), Ghost(n));
    merge(
        &left,
        &right,
        less,
        Ghost(before),
        Ghost(lo as int),
        Ghost(mid as int),
        Ghost(hi as int),
        Ghost(n),
    )
}

/// The indices of the keys in the order of descending keys; equal keys keep
/// their order.
pub fn order_desc(keys: &Vec<i128>) -> (r: Vec<usize>)
    ensures
        ints(r@) == the_order(keys@.len() as int, by_key_desc(key_ints(keys@))),
        is_order(keys@.len() as int, ints(r@), by_key_desc(key_ints(keys@))),
{
    let n: usize = keys.len();
    let ghost ks = key_ints(keys@);
    let ghost before = by_key_desc(ks);
    let less = |i: usize, j: usize| -> (b: bool)
        requires
            i < keys@.len(),
            j < keys@.len(),
        ensures
            b == before(i as int, j as int),
        { keys[i] > keys[j] || (keys[i] == keys[j] && i < j) };
    proof {
        lemma_by_key_total(ks);
    }
    let r = sort_range(0, n, &less, Ghost(before), Ghost(n as int));
    proof {
        the_order_is_an_order(n as int, before);
        order_is_unique(n as int, ints(r@), the_order(n as int, before), before);
    }
    r
}

/// The keys as mathematical integers.
pub open spec fn key_ints(keys: Seq<i128>) -> Seq<int> {
    Seq::new(keys.len(), |i: int| keys[i] as int)
}

/// The indices of the texts in ascending order; equal texts keep their order.
pub fn order_by_text(keys: &Vec<Vec<char>>) -> (r: Vec<usize>)
    ensures
        ints(r@) == the_order(keys@.len() as int, by_text(text::views(keys@))),
        is_order(keys@.len() as int, ints(r@), by_text(text::views(keys@))),
{
    let n: usize = keys.len();
    let ghost ks = text::views(keys@);
    let ghost before = by_text(ks);
    let less = |i: usize, j: usize| -> (b: bool)
        requires
            i < keys@.len(),
            j < keys@.len(),
        ensures
            b == before(i as int, j as int),
        {
            text::lex_before(keys[i].as_slice(), keys[j].as_slice()) || (text::same_chars(
                keys[i].as_slice(),
                keys[j].as_slice(),
            ) && i < j)
        };
    proof {
        lemma_by_text_total(ks);
    }
    let r = sort_range(0, n, &less, Ghost(before), Ghost(n as int));
    proof {
        the_order_is_an_order(n as int, before);
        order_is_unique(n as int, ints(r@), the_order(n as int, before), before);
    }
    r
}

/// Sorting by descending keys is stable: it keeps every row once, puts rows with
/// greater keys first and leaves rows with equal keys in their order.
pub proof fn sorting_is_stable<V>(s: Seq<V>, keys: Seq<int>)
    requires
        s.len() == keys.len(),
    ensures
        ({
            let r = the_order(s.len() as int, by_key_desc(keys));
            &&& sorted_desc(s, keys) == arranged(s, r)
            &&& covers(r, 0, s.len() as int)
            &&& forall|a: int, b: int|
                0 <= a < b < r.len() ==> keys[#[trigger] r[a]] > keys[#[trigger] r[b]] || (
                keys[r[a]] == keys[r[b]] && r[a] < r[b])
        }),
{
    let before = by_key_desc(keys);
    let r = the_order(s.len() as int, before);
    lemma_by_key_total(keys);
    the_order_is_an_order(s.len() as int, before);
    assert forall|a: int, b: int| 0 <= a < b < r.len() implies keys[#[trigger] r[a]]
        > keys[#[trigger] r[b]] || (keys[r[a]] == keys[r[b]] && r[a] < r[b]) by {
        assert(before(r[a], r[b]));
    }
}

/// Sorting by ascending texts is stable: it keeps every row once, puts rows with
/// lesser texts first and leaves rows with equal texts in their order.
pub proof fn sorting_by_text_is_stable<V>(s: Seq<V>, keys: Seq<Seq<char>>)
    requires
        s.len() == keys.len(),
    ensures
        ({
            let r = the_order(s.len() as int, by_text(keys));
            &&& sorted_by_text(s, keys) == arranged(s, r)
            &&& covers(r, 0, s.len() as int)
            &&& forall|a: int, b: int|
                0 <= a < b < r.len() ==> text::lex_less(
                    keys[#[trigger] r[a]],
                    keys[#[trigger] r[b]],
                ) || (keys[r[a]] == keys[r[b]] && r[a] < r[b])
        }),
{
    let before = by_text(keys);
    let r = the_order(s.len() as int, before);
    lemma_by_text_total(keys);
    the_order_is_an_order(s.len() as int, before);
    assert forall|a: int, b: int| 0 <= a < b < r.len() implies text::lex_less(
        keys[#[trigger] r[a]],
        keys[#[trigger] r[b]],
    ) || (keys[r[a]] == keys[r[b]] && r[a] < r[b]) by {
        assert(before(r[a], r[b]));
    }
}

/// Rows without the one at a place, together with that one, are the rows.
proof fn lemma_without_row<V>(s: Seq<V>, k: int)
    requires
        0 <= k < s.len(),
    ensures
        s.remove(k).to_multiset().insert(s[k]) == s.to_multiset(),
{
    broadcast use vstd::seq_lib::group_to_multiset_ensures;

    assert(s.remove(k).insert(k, s[k]) =~= s);
    assert(s.remove(k).to_multiset().insert(s[k]) =~= s.to_multiset());
}

/// Arranging rows by an order of their indices keeps each row as often as it occurs.
pub proof fn lemma_arranged_multiset<V>(s: Seq<V>, r: Seq<int>)
    requires
        covers(r, 0, s.len() as int),
    ensures
        arranged(s, r).to_multiset() == s.to_multiset(),
    decreases s.len(),
{
    broadcast use vstd::seq_lib::group_to_multiset_ensures;

    let n = s.len() as int;
    if n > 0 {
        assert(r.contains(n - 1));
        let p = choose|p: int| 0 <= p < r.len() && r[p] == n - 1;
        let rest = r.remove(p);
        let front = s.drop_last();
        lemma_indices_once(r, n);
        assert forall|a: int| 0 <= a < rest.len() implies 0 <= #[trigger] rest[a] < n - 1 by {
            if a < p {
                assert(rest[a] == r[a]);
            } else {
                assert(rest[a] == r[a + 1]);
            }
        }
        assert forall|i: int| 0 <= i < n - 1 implies #[trigger] rest.contains(i) by {
            assert(r.contains(i));
            let a = choose|a: int| 0 <= a < r.len() && r[a] == i;
            if a < p {
                assert(rest[a] == i);
            } else {
                assert(rest[a - 1] == i);
            }
        }
        lemma_arranged_multiset(front, rest);
        let ranked = arranged(s, r);
        assert(ranked.remove(p) =~= arranged(front, rest)) by {
            assert forall|a: int| 0 <= a < rest.len() implies ranked.remove(p)[a] == arranged(
                front,
                rest,
            )[a] by {
                assert(0 <= rest[a] < n - 1);
                if a < p {
                    assert(rest[a] == r[a]);
                } else {
                    assert(rest[a] == r[a + 1]);
                }
            }
        }
        lemma_without_row(ranked, p);
        lemma_without_row(s, n - 1);
        assert(s.remove(n - 1) =~= front);
    } else {
        assert(arranged(s, r) =~= s);
    }
}

/// An order lists no index twice.
pub proof fn lemma_indices_once(r: Seq<int>, n: int)
    requires
        covers(r, 0, n),
    ensures
        r.no_duplicates(),
{
    let range = Seq::new(n as nat, |i: int| i);
    let all = range.to_set();
    assert(range.no_duplicates());
    range.unique_seq_to_set();
    assert(r.to_set() =~= all) by {
        assert forall|i: int| r.to_set().contains(i) <==> all.contains(i) by {
            if r.contains(i) {
                let a = choose|a: int| 0 <= a < r.len() && r[a] == i;
                assert(range[i] == i);
            }
            if all.contains(i) {
                assert(range.contains(i));
                assert(r.contains(i));
            }
        }
    }
    vstd::seq_lib::seq_to_set_is_finite(r);
    r.lemma_no_dup_set_cardinality();
}

} // verus!
