//! Queries: their prefixes, their results and the filters on them.

use vstd::prelude::*;

use crate::db;
use crate::db::{ChunkMatch, ChunkMatchView, Db, DbView};
use crate::document;
use crate::document::{Document, DocumentView, FieldView};
use crate::order;
use crate::table;
use crate::text;

verus! {

/// A single search result.
#[derive(Debug)]
pub struct SearchResult {
    pub doc_id: String,
    pub title: String,
    pub snippet: Option<String>,
    pub collection: Option<String>,
}

/// What a search result holds.
pub struct SearchResultView {
    pub doc_id: Seq<char>,
    pub title: Seq<char>,
    pub snippet: Option<Seq<char>>,
    pub collection: Option<Seq<char>>,
}

impl View for SearchResult {
    type V = SearchResultView;

    open spec fn view(&self) -> SearchResultView {
        SearchResultView {
            doc_id: self.doc_id@,
            title: self.title@,
            snippet: document::opt_view(self.snippet),
            collection: document::opt_view(self.collection),
        }
    }
}

impl Clone for SearchResult {
    fn clone(&self) -> (r: Self)
        ensures
            r == *self,
    {
        SearchResult {
            doc_id: self.doc_id.clone(),
            title: self.title.clone(),
            snippet: document::clone_opt(&self.snippet),
            collection: document::clone_opt(&self.collection),
        }
    }
}

// ---------------------------------------------------------------------------
// Query prefixes
// ---------------------------------------------------------------------------

/// Query prefix variants.
#[derive(Debug)]
pub enum QueryKind {
    /// Keyword search (default, or explicit `lex:` prefix)
    Lex(String),
    /// Intent context: used for disambiguation but not searched
    Intent(String),
    /// Vector search; falls back to keyword search where there are no embeddings
    Vec(String),
}

/// What a query asks for.
pub enum QueryView {
    Lex(Seq<char>),
    Intent(Seq<char>),
    Vec(Seq<char>),
}

impl View for QueryKind {
    type V = QueryView;

    open spec fn view(&self) -> QueryView {
        match self {
            QueryKind::Lex(q) => QueryView::Lex(q@),
            QueryKind::Intent(q) => QueryView::Intent(q@),
            QueryKind::Vec(q) => QueryView::Vec(q@),
        }
    }
}

/// What a raw query asks for: what follows its prefix, trimmed, or all of it.
pub open spec fn query_of(raw: Seq<char>) -> QueryView {
    let q = text::trimmed(raw);
    if text::begins_with(q, "intent:"@) {
        QueryView::Intent(text::trimmed(q.skip("intent:"@.len() as int)))
    } else if text::begins_with(q, "vec:"@) {
        QueryView::Vec(text::trimmed(q.skip("vec:"@.len() as int)))
    } else if text::begins_with(q, "lex:"@) {
        QueryView::Lex(text::trimmed(q.skip("lex:"@.len() as int)))
    } else {
        QueryView::Lex(q)
    }
}

/// What follows a prefix, trimmed.
fn after_prefix(q: &[char], prefix: &str) -> (r: Option<String>)
    ensures
        document::opt_view(r) == if text::begins_with(q@, prefix@) {
            Some(text::trimmed(q@.skip(prefix@.len() as int)))
        } else {
            None
        },
{
    let p = text::chars_of(prefix);
    if text::stands_at(q, p.as_slice(), 0) {
        Some(text::string_of(text::trim(text::skip(q, p.len()))))
    } else {
        None
    }
}

/// Parses a structured query prefix and returns the effective query and kind.
///
/// Supported prefixes:
///   `lex: <query>`    keyword search (default)
///   `intent: <text>`  context hint only, returns no results
///   `vec: <query>`    semantic search
pub fn parse_query(raw: &str) -> (r: QueryKind)
    ensures
        r@ == query_of(raw@),
{
    let chars = text::chars_of(raw);
    let q = text::trim(chars.as_slice());
    if let Some(rest) = after_prefix(q, "intent:") {
        return QueryKind::Intent(rest);
    }
    if let Some(rest) = after_prefix(q, "vec:") {
        return QueryKind::Vec(rest);
    }
    match after_prefix(q, "lex:") {
        Some(rest) => QueryKind::Lex(rest),
        None => QueryKind::Lex(text::string_of(q)),
    }
}

// ---------------------------------------------------------------------------
// Exclusions
// ---------------------------------------------------------------------------

/// The index of the first white-space character of `s` outside quotation marks,
/// or its length if there is none; `quoted` is whether `s` begins inside them.
pub open spec fn term_end(s: Seq<char>, quoted: bool) -> nat
    decreases s.len(),
{
    if s.len() == 0 || (text::is_white(s[0]) && !quoted) {
        0
    } else {
        1 + term_end(s.skip(1), quoted != (s[0] == '"'))
    }
}

/// A term ends within the query.
pub proof fn lemma_term_end(s: Seq<char>, quoted: bool)
    ensures
        term_end(s, quoted) <= s.len(),
    decreases s.len(),
{
    if s.len() > 0 {
        lemma_term_end(s.skip(1), quoted != (s[0] == '"'));
    }
}

/// The terms of a query: what stands between white space, with quoted phrases
/// kept together.
pub open spec fn terms_of(s: Seq<char>) -> Seq<Seq<char>>
    decreases s.len(),
{
    if s.len() == 0 {
        Seq::empty()
    } else if text::is_white(s[0]) {
        terms_of(s.skip(1))
    } else {
        proof {
            lemma_term_end(s, false);
        }
        seq![s.take(term_end(s, false) as int)] + terms_of(s.skip(term_end(s, false) as int))
    }
}

/// The terms of a query.
fn terms(s: &[char]) -> (r: Vec<Vec<char>>)
    ensures
        text::views(r@) == terms_of(s@),
{
    let mut out: Vec<Vec<char>> = Vec::new();
    let n: usize = s.len();
    let mut start: usize = 0;
    assert(s@.skip(0) =~= s@);
    assert(text::views(out@) + terms_of(s@) =~= terms_of(s@));
    while start < n
        invariant
            start <= n == s@.len(),
            text::views(out@) + terms_of(s@.skip(start as int)) == terms_of(s@),
        decreases n - start,
    {
        let ghost rest = s@.skip(start as int);
        if text::white(s[start]) {
            assert(rest.skip(1) =~= s@.skip(start + 1));
            start += 1;
        } else {
            let mut end: usize = start;
            let mut quoted: bool = false;
            assert(rest.skip(0) =~= rest);
            while end < n && (quoted || !text::white(s[end]))
                invariant
                    start <= end <= n == s@.len(),
                    rest == s@.skip(start as int),
                    term_end(rest, false) == (end - start) + term_end(
                        rest.skip(end - start),
                        quoted,
                    ),
                decreases n - end,
            {
                assert(rest.skip(end - start).skip(1) =~= rest.skip(end - start + 1));
                quoted = quoted != (s[end] == '"');
                end += 1;
            }
            assert(term_end(rest, false) == end - start);
            assert(end > start);
            let ghost before = out@;
            let term = vstd::slice::slice_to_vec(vstd::slice::slice_subrange(s, start, end));
            assert(term@ =~= rest.take(end - start));
            out.push(term);
            assert(rest.skip(end - start) =~= s@.skip(end as int));
            assert(text::views(out@) =~= text::views(before).push(term@));
            assert(text::views(before) + terms_of(rest) =~= text::views(out@) + terms_of(
                s@.skip(end as int),
            ));
            start = end;
        }
    }
    assert(text::views(out@) + terms_of(s@.skip(start as int)) =~= text::views(out@));
    out
}

/// Whether one of two characters stands in `s` outside quotation marks; `quoted`
/// is whether `s` begins inside them.
pub open spec fn holds_bare(s: Seq<char>, a: char, b: char, quoted: bool) -> bool
    decreases s.len(),
{
    s.len() > 0 && ((!quoted && (s[0] == a || s[0] == b)) || holds_bare(
        s.skip(1),
        a,
        b,
        quoted != (s[0] == '"'),
    ))
}

/// Whether one of two characters stands in `s` outside quotation marks.
fn has_bare(s: &[char], a: char, b: char) -> (r: bool)
    ensures
        r == holds_bare(s@, a, b, false),
{
    let n: usize = s.len();
    let mut quoted: bool = false;
    let mut i: usize = 0;
    assert(s@.skip(0) =~= s@);
    while i < n
        invariant
            i <= n == s@.len(),
            holds_bare(s@, a, b, false) == holds_bare(s@.skip(i as int), a, b, quoted),
        decreases n - i,
    {
        assert(s@.skip(i as int)[0] == s@[i as int]);
        assert(s@.skip(i as int).skip(1) =~= s@.skip(i + 1));
        if !quoted && (s[i] == a || s[i] == b) {
            return true;
        }
        quoted = quoted != (s[i] == '"');
        i += 1;
    }
    false
}

/// Whether a term is an operator of the index's syntax, or holds a bracket of it.
pub open spec fn is_operator(term: Seq<char>) -> bool {
    ||| term == "AND"@
    ||| term == "OR"@
    ||| term == "NOT"@
    ||| holds_bare(term, '(', ')', false)
}

/// Whether a term is an operator of the index's syntax, or holds a bracket of it.
fn operates(term: &[char]) -> (r: bool)
    ensures
        r == is_operator(term@),
{
    text::equals(term, "AND") || text::equals(term, "OR") || text::equals(term, "NOT")
        || has_bare(term, '(', ')')
}

/// Whether term `i` excludes what follows its minus sign. A term that names a
/// column of the index, opens a list of columns, or stands before a colon is left
/// alone: there the minus sign belongs to a column filter.
pub open spec fn is_exclusion(terms: Seq<Seq<char>>, i: int) -> bool {
    &&& terms[i].len() > 1
    &&& terms[i][0] == '-'
    &&& !holds_bare(terms[i], ':', '{', false)
    &&& !(i + 1 < terms.len() && terms[i + 1].len() > 0 && terms[i + 1][0] == ':')
}

/// Whether term `i` excludes what follows its minus sign.
fn excludes(terms: &Vec<Vec<char>>, i: usize) -> (r: bool)
    requires
        i < terms@.len(),
    ensures
        r == is_exclusion(text::views(terms@), i as int),
{
    let ghost views = text::views(terms@);
    assert(views[i as int] == terms@[i as int]@);
    let n: usize = terms.len();
    if terms[i].len() <= 1 || terms[i][0] != '-' || has_bare(terms[i].as_slice(), ':', '{') {
        return false;
    }
    if i + 1 < n {
        assert(views[i + 1] == terms@[i + 1]@);
        return !(terms[i + 1].len() > 0 && terms[i + 1][0] == ':');
    }
    true
}

/// Those of the first `n` terms that exclude something, or those that do not.
pub open spec fn terms_apart(terms: Seq<Seq<char>>, excluding: bool, n: int) -> Seq<Seq<char>>
    decreases n,
{
    if n <= 0 {
        Seq::empty()
    } else if is_exclusion(terms, n - 1) == excluding {
        terms_apart(terms, excluding, n - 1).push(terms[n - 1])
    } else {
        terms_apart(terms, excluding, n - 1)
    }
}

/// The exclusion of each of the first `n` terms, without their minus signs.
pub open spec fn exclusions(terms: Seq<Seq<char>>, n: int) -> Seq<char>
    decreases n,
{
    if n <= 0 {
        Seq::empty()
    } else {
        exclusions(terms, n - 1) + " NOT "@ + terms[n - 1].skip(1)
    }
}

/// Whether one of the first `n` terms is an operator.
pub open spec fn has_operator(terms: Seq<Seq<char>>, n: int) -> bool
    decreases n,
{
    n > 0 && (is_operator(terms[n - 1]) || has_operator(terms, n - 1))
}

/// A query in the syntax of the full-text index: `a -b` asks for `a` without `b`.
/// A query that excludes nothing, or nothing but excludes, is left as it is, and
/// so is one that uses operators or brackets of the index's own syntax.
pub open spec fn fts5_of(query: Seq<char>) -> Seq<char> {
    let all = terms_of(query);
    let kept = terms_apart(all, false, all.len() as int);
    let gone = terms_apart(all, true, all.len() as int);
    if kept.len() == 0 || gone.len() == 0 || has_operator(all, all.len() as int) {
        query
    } else {
        "("@ + text::joined(kept, " "@) + ")"@ + exclusions(gone, gone.len() as int)
    }
}

/// A query in the syntax of the full-text index.
pub fn fts5_query(query: &str) -> (r: String)
    ensures
        r@ == fts5_of(query@),
{
    let chars = text::chars_of(query);
    let all = terms(chars.as_slice());
    let ghost views = text::views(all@);
    let mut kept: Vec<Vec<char>> = Vec::new();
    let mut tail = String::new();
    let mut count: usize = 0;
    let mut own: bool = false;
    let n: usize = all.len();
    let mut i: usize = 0;
    let ghost mut gone: Seq<Seq<char>> = Seq::empty();
    assert(text::views(kept@) =~= Seq::empty());
    while i < n
        invariant
            i <= n == all@.len(),
            views == text::views(all@),
            text::views(kept@) == terms_apart(views, false, i as int),
            gone == terms_apart(views, true, i as int),
            count == gone.len(),
            count <= i,
            tail@ == exclusions(gone, gone.len() as int),
            own == has_operator(views, i as int),
        decreases n - i,
    {
        assert(views[i as int] == all@[i as int]@);
        own = operates(all[i].as_slice()) || own;
        if excludes(&all, i) {
            let ghost before = gone;
            tail.append(" NOT ");
            text::push_chars(&mut tail, text::skip(all[i].as_slice(), 1));
            proof {
                gone = gone.push(views[i as int]);
                lemma_exclusions_prefix(before, gone, before.len() as int);
                assert(tail@ =~= exclusions(gone, gone.len() as int));
            }
            count += 1;
        } else {
            let ghost before = kept@;
            let term = vstd::slice::slice_to_vec(all[i].as_slice());
            kept.push(term);
            assert(text::views(kept@) =~= text::views(before).push(views[i as int]));
        }
        i += 1;
    }
    let m: usize = kept.len();
    if m == 0 || count == 0 || own {
        return query.to_owned();
    }
    let joined = text::join(&kept, 0, m, " ");
    assert(text::views(kept@).subrange(0, m as int) =~= text::views(kept@));
    let mut out = "(".to_owned();
    text::push_chars(&mut out, joined.as_slice());
    out.append(")");
    out.append(tail.as_str());
    out
}

/// The exclusions of some terms do not depend on what follows them.
proof fn lemma_exclusions_prefix(a: Seq<Seq<char>>, b: Seq<Seq<char>>, n: int)
    requires
        0 <= n <= a.len() <= b.len(),
        forall|i: int| 0 <= i < a.len() ==> #[trigger] a[i] == b[i],
    ensures
        exclusions(a, n) == exclusions(b, n),
    decreases n,
{
    if n > 0 {
        lemma_exclusions_prefix(a, b, n - 1);
        assert(a[n - 1] == b[n - 1]);
    }
}

// ---------------------------------------------------------------------------
// Filters
// ---------------------------------------------------------------------------

/// A comparison of a filter.
#[derive(Debug, Clone, Copy, PartialEq, Eq, Structural)]
pub enum WhereOp {
    AtLeast,
    AtMost,
    Unequal,
    Greater,
    Less,
    Equal,
}

/// A filter on a document's field.
#[derive(Debug)]
pub struct WhereClause {
    pub field: String,
    pub op: WhereOp,
    pub value: String,
}

/// What a filter asks for.
pub struct WhereView {
    pub field: Seq<char>,
    pub op: WhereOp,
    pub value: Seq<char>,
}

impl View for WhereClause {
    type V = WhereView;

    open spec fn view(&self) -> WhereView {
        WhereView { field: self.field@, op: self.op, value: self.value@ }
    }
}

/// An expression divided at the first place of an operator, if it holds it.
pub open spec fn split_at(expr: Seq<char>, sign: Seq<char>, op: WhereOp) -> Option<WhereView> {
    match text::find_in(expr, sign) {
        Some(i) => Some(
            WhereView {
                field: text::trimmed(expr.take(i)),
                op,
                value: text::trimmed(expr.skip(i + sign.len())),
            },
        ),
        None => None,
    }
}

/// The first of two optional filters.
pub open spec fn either(a: Option<WhereView>, b: Option<WhereView>) -> Option<WhereView> {
    match a {
        Some(w) => Some(w),
        None => b,
    }
}

/// The filter that an expression stands for. Longer operators are looked for
/// first, wherever they stand.
pub open spec fn where_of(expr: Seq<char>) -> Option<WhereView> {
    let e = text::trimmed(expr);
    either(
        split_at(e, ">="@, WhereOp::AtLeast),
        either(
            split_at(e, "<="@, WhereOp::AtMost),
            either(
                split_at(e, "!="@, WhereOp::Unequal),
                either(
                    split_at(e, ">"@, WhereOp::Greater),
                    either(
                        split_at(e, "<"@, WhereOp::Less),
                        split_at(e, "="@, WhereOp::Equal),
                    ),
                ),
            ),
        ),
    )
}

/// The content of an optional filter.
pub open spec fn opt_where(w: Option<WhereClause>) -> Option<WhereView> {
    match w {
        Some(c) => Some(c@),
        None => None,
    }
}

/// An expression divided at the first place of an operator, if it holds it.
fn split_where(expr: &[char], sign: &str, op: WhereOp) -> (r: Option<WhereClause>)
    ensures
        opt_where(r) == split_at(expr@, sign@, op),
{
    let s = text::chars_of(sign);
    let total: usize = expr.len();
    match text::find(expr, s.as_slice()) {
        Some(i) => {
            assert(i + s@.len() <= total);
            Some(
                WhereClause {
                    field: text::string_of(text::trim(text::take(expr, i))),
                    op,
                    value: text::string_of(text::trim(text::skip(expr, i + s.len()))),
                },
            )
        },
        None => None,
    }
}

/// Parses a filter expression `<field> <op> <value>`; `None` where it holds no
/// operator.
pub fn parse_where(expr: &str) -> (r: Option<WhereClause>)
    ensures
        opt_where(r) == where_of(expr@),
{
    let chars = text::chars_of(expr);
    let e = text::trim(chars.as_slice());
    if let Some(w) = split_where(e, ">=", WhereOp::AtLeast) {
        return Some(w);
    }
    if let Some(w) = split_where(e, "<=", WhereOp::AtMost) {
        return Some(w);
    }
    if let Some(w) = split_where(e, "!=", WhereOp::Unequal) {
        return Some(w);
    }
    if let Some(w) = split_where(e, ">", WhereOp::Greater) {
        return Some(w);
    }
    if let Some(w) = split_where(e, "<", WhereOp::Less) {
        return Some(w);
    }
    split_where(e, "=", WhereOp::Equal)
}

/// A frontmatter value as text: a string as it is, a number or truth value as
/// it is written, anything else as nothing.
pub open spec fn value_text(text: Option<Seq<char>>, json: Seq<char>) -> Seq<char> {
    match text {
        Some(t) => t,
        None => if json == "null"@ || (json.len() > 0 && (json[0] == '[' || json[0] == '{')) {
            Seq::empty()
        } else {
            json
        },
    }
}

/// The text of the first field with the given key; nothing where there is none.
pub open spec fn named_value(fields: Seq<FieldView>, key: Seq<char>) -> Seq<char>
    decreases fields.len(),
{
    if fields.len() == 0 {
        Seq::empty()
    } else if fields[0].0 == key {
        value_text(fields[0].1, fields[0].2)
    } else {
        named_value(fields.skip(1), key)
    }
}

/// The value of a document's field: its collection, path or title, or a value
/// of its frontmatter.
pub open spec fn value_of(doc: DocumentView, field: Seq<char>) -> Seq<char> {
    if field == "collection"@ {
        doc.collection
    } else if field == "path"@ {
        doc.path
    } else if field == "title"@ {
        doc.title
    } else {
        named_value(doc.frontmatter, field)
    }
}

/// The value of a document's field.
pub fn field_value(doc: &Document, field: &str) -> (r: String)
    ensures
        r@ == value_of(doc@, field@),
{
    if text::same(field, "collection") {
        return doc.collection.clone();
    }
    if text::same(field, "path") {
        return doc.path.clone();
    }
    if text::same(field, "title") {
        return doc.title.clone();
    }
    let ghost all = doc.frontmatter@;
    let n: usize = doc.frontmatter.fields.len();
    let mut i: usize = 0;
    assert(all.skip(0) =~= all);
    while i < n
        invariant
            i <= n == doc.frontmatter.fields@.len(),
            all == doc.frontmatter@,
            value_of(doc@, field@) == named_value(all.skip(i as int), field@),
        decreases n - i,
    {
        assert(all.skip(i as int)[0] == doc.frontmatter.fields@[i as int]@);
        if text::same(doc.frontmatter.fields[i].key.as_str(), field) {
            let json = text::chars_of(doc.frontmatter.fields[i].value.json.as_str());
            return match &doc.frontmatter.fields[i].value.text {
                Some(t) => t.clone(),
                None => if text::equals(json.as_slice(), "null") || (json.len() > 0 && (json[0]
                    == '[' || json[0] == '{')) {
                    String::new()
                } else {
                    text::string_of(json.as_slice())
                },
            };
        }
        assert(all.skip(i as int).skip(1) =~= all.skip(i + 1));
        i += 1;
    }
    assert(all.skip(n as int).len() == 0);
    String::new()
}

/// How two numbers compare. Numbers that differ by less than a hair are near
/// each other, others far; of what is no number none of this holds.
#[derive(Debug, Clone, Copy, PartialEq, Eq, Structural)]
pub struct NumericComparison {
    pub near: bool,
    pub far: bool,
    pub less: bool,
    pub equal: bool,
    pub greater: bool,
}

/// Whether a comparison holds of two numbers.
pub open spec fn holds_of_numbers(op: WhereOp, c: NumericComparison) -> bool {
    match op {
        WhereOp::Equal => c.near,
        WhereOp::Unequal => c.far,
        WhereOp::Greater => c.greater,
        WhereOp::Less => c.less,
        WhereOp::AtLeast => c.greater || c.equal,
        WhereOp::AtMost => c.less || c.equal,
    }
}

/// Whether a comparison holds of two texts.
pub open spec fn holds_of_texts(op: WhereOp, actual: Seq<char>, expected: Seq<char>) -> bool {
    match op {
        WhereOp::Equal => actual == expected,
        WhereOp::Unequal => actual != expected,
        WhereOp::Greater => text::lex_less(expected, actual),
        WhereOp::Less => text::lex_less(actual, expected),
        WhereOp::AtLeast => text::lex_less(expected, actual) || actual == expected,
        WhereOp::AtMost => text::lex_less(actual, expected) || actual == expected,
    }
}

/// Whether a comparison holds of two values. `numeric` is how the values compare
/// as numbers, where both are numbers; otherwise they compare as texts.
pub fn compare_values(
    actual: &str,
    op: WhereOp,
    expected: &str,
    numeric: Option<NumericComparison>,
) -> (r: bool)
    ensures
        r == match numeric {
            Some(c) => holds_of_numbers(op, c),
            None => holds_of_texts(op, actual@, expected@),
        },
        numeric matches Some(c) ==> is_numeric_answer(op, c, r),
        numeric is None ==> is_text_answer(op, actual@, expected@, r),
{
    proof {
        text_filters_follow_the_order(op, actual@, expected@);
    }
    if let Some(c) = numeric {
        return match op {
            WhereOp::Equal => c.near,
            WhereOp::Unequal => c.far,
            WhereOp::Greater => c.greater,
            WhereOp::Less => c.less,
            WhereOp::AtLeast => c.greater || c.equal,
            WhereOp::AtMost => c.less || c.equal,
        };
    }
    let a = text::chars_of(actual);
    let e = text::chars_of(expected);
    match op {
        WhereOp::Equal => text::same_chars(a.as_slice(), e.as_slice()),
        WhereOp::Unequal => !text::same_chars(a.as_slice(), e.as_slice()),
        WhereOp::Greater => text::lex_before(e.as_slice(), a.as_slice()),
        WhereOp::Less => text::lex_before(a.as_slice(), e.as_slice()),
        WhereOp::AtLeast => text::lex_before(e.as_slice(), a.as_slice()) || text::same_chars(
            a.as_slice(),
            e.as_slice(),
        ),
        WhereOp::AtMost => text::lex_before(a.as_slice(), e.as_slice()) || text::same_chars(
            a.as_slice(),
            e.as_slice(),
        ),
    }
}

/// Returns `true` if the document satisfies a filter expression.
///
/// Expression format: `<field> <op> <value>`
/// Operators: `=`, `!=`, `>`, `<`, `>=`, `<=`
/// Fields: `collection`, `path`, `title`, or any frontmatter key.
/// An expression without an operator is satisfied by every document.
///
/// `numeric` is how the field's value and the expected one compare as numbers,
/// where both are numbers.
///
/// Examples: `collection=papers`, `date>2024-01`, `title!=Untitled`
pub fn where_matches(doc: &Document, expr: &str, numeric: Option<NumericComparison>) -> (r: bool)
    ensures
        r == match where_of(expr@) {
            Some(w) => match numeric {
                Some(c) => holds_of_numbers(w.op, c),
                None => holds_of_texts(w.op, value_of(doc@, w.field), w.value),
            },
            None => true,
        },
        where_of(expr@) matches Some(w) ==> (numeric matches Some(c) ==> is_numeric_answer(
            w.op,
            c,
            r,
        )),
        where_of(expr@) matches Some(w) ==> (numeric is None ==> is_text_answer(
            w.op,
            value_of(doc@, w.field),
            w.value,
            r,
        )),
{
    match parse_where(expr) {
        Some(w) => {
            let actual = field_value(doc, w.field.as_str());
            compare_values(actual.as_str(), w.op, w.value.as_str(), numeric)
        },
        None => true,
    }
}

// ---------------------------------------------------------------------------
// Full-text search
// ---------------------------------------------------------------------------

/// When the documents of the results were added.
pub open spec fn result_instants(store: DbView, results: Seq<SearchResultView>) -> Seq<int> {
    Seq::new(
        results.len(),
        |i: int|
            match table::first_where(store.documents, db::doc_has_id(results[i].doc_id)) {
                Some(d) => document::instant(store.documents[d].added_at),
                None => 0,
            },
    )
}

/// The titles of the results.
pub open spec fn result_titles(results: Seq<SearchResultView>) -> Seq<Seq<char>> {
    Seq::new(results.len(), |i: int| results[i].title)
}

/// The results in the order asked for: the newest first, by title, or as they are.
pub open spec fn sorted_results(
    store: DbView,
    results: Seq<SearchResultView>,
    sort: Seq<char>,
) -> Seq<SearchResultView> {
    if sort == "date"@ {
        order::sorted_desc(results, result_instants(store, results))
    } else if sort == "title"@ {
        order::sorted_by_text(results, result_titles(results))
    } else {
        results
    }
}

/// The rows without the first `offset` ones.
pub open spec fn after_offset<V>(s: Seq<V>, offset: int) -> Seq<V> {
    if offset <= s.len() {
        s.skip(offset)
    } else {
        Seq::empty()
    }
}

/// A page of results: sorted as asked for, without the first `offset` ones, and
/// `limit` of the rest at most.
pub open spec fn result_page(
    store: DbView,
    results: Seq<SearchResultView>,
    limit: int,
    offset: int,
    sort: Seq<char>,
) -> Seq<SearchResultView> {
    db::limited(after_offset(sorted_results(store, results, sort), offset), limit)
}

/// There are no more results than matching rows.
proof fn lemma_results_len(
    store: DbView,
    ranked: Seq<ChunkMatchView>,
    collection: Option<Seq<char>>,
    with_snippets: bool,
    n: int,
)
    ensures
        db::results_upto(store, ranked, collection, with_snippets, n).len() <= if n > 0 {
            n
        } else {
            0
        },
    decreases n,
{
    if n > 0 {
        lemma_results_len(store, ranked, collection, with_snippets, n - 1);
    }
}

/// Dropping repeats adds no result.
proof fn lemma_once_len(results: Seq<SearchResultView>)
    ensures
        db::one_per_document(results).len() <= results.len(),
    decreases results.len(),
{
    if results.len() > 0 {
        lemma_once_len(results.drop_last());
    }
}

/// The results at the given places, from place `offset` on, `limit` of them at
/// most.
fn arrange(
    results: &Vec<SearchResult>,
    places: &Vec<usize>,
    limit: usize,
    offset: usize,
) -> (r: Vec<SearchResult>)
    requires
        places@.len() == results@.len(),
        order::covers(order::ints(places@), 0, results@.len() as int),
    ensures
        table::rows(r@) == db::limited(
            after_offset(
                order::arranged(table::rows(results@), order::ints(places@)),
                offset as int,
            ),
            limit as int,
        ),
{
    let ghost all = order::arranged(table::rows(results@), order::ints(places@));
    let n: usize = results.len();
    let mut out: Vec<SearchResult> = Vec::new();
    if offset > n {
        assert(table::rows(out@) =~= Seq::empty());
        return out;
    }
    let end: usize = if limit <= n - offset {
        offset + limit
    } else {
        n
    };
    let mut i: usize = offset;
    assert(table::rows(out@) =~= all.subrange(offset as int, offset as int));
    while i < end
        invariant
            offset <= i <= end <= n == results@.len() == places@.len() == all.len(),
            order::covers(order::ints(places@), 0, n as int),
            all == order::arranged(table::rows(results@), order::ints(places@)),
            table::rows(out@) == all.subrange(offset as int, i as int),
        decreases end - i,
    {
        let ghost had = out@;
        assert(0 <= order::ints(places@)[i as int] < n);
        let at: usize = places[i];
        out.push(results[at].clone());
        assert(table::rows(out@) =~= table::rows(had).push(all[i as int]));
        i += 1;
        assert(all.subrange(offset as int, i as int) =~= all.subrange(offset as int, i - 1).push(
            all[i - 1],
        ));
    }
    assert(all.subrange(offset as int, end as int) =~= db::limited(
        all.skip(offset as int),
        limit as int,
    ));
    out
}

/// A page of results: as they are, or newest first where `sort` is `date`, or by
/// title where it is `title`. The first `offset` results are skipped, and at most
/// `limit` are returned.
pub fn page_results(
    store: &Db,
    results: &Vec<SearchResult>,
    limit: usize,
    offset: usize,
    sort: &str,
) -> (r: Vec<SearchResult>)
    ensures
        table::rows(r@) == result_page(
            store@,
            table::rows(results@),
            limit as int,
            offset as int,
            sort@,
        ),
{
    let ghost found = table::rows(results@);
    let n: usize = results.len();
    if text::same(sort, "date") {
        let ghost wanted = result_instants(store@, found);
        let mut keys: Vec<i128> = Vec::new();
        let mut i: usize = 0;
        while i < n
            invariant
                i <= n == results@.len(),
                found == table::rows(results@),
                wanted == result_instants(store@, found),
                keys@.len() == i,
                forall|k: int| 0 <= k < i ==> (#[trigger] keys@[k]) == wanted[k],
            decreases n - i,
        {
            assert(found[i as int] == results@[i as int]@);
            let key: i128 = match store.get_document(results[i].doc_id.as_str()) {
                Ok(doc) => doc.added_at.instant(),
                Err(e) => 0,
            };
            keys.push(key);
            i += 1;
        }
        assert(order::key_ints(keys@) =~= wanted);
        let places = order::order_desc(&keys);
        arrange(results, &places, limit, offset)
    } else if text::same(sort, "title") {
        let ghost wanted = result_titles(found);
        let mut titles: Vec<Vec<char>> = Vec::new();
        let mut i: usize = 0;
        while i < n
            invariant
                i <= n == results@.len(),
                found == table::rows(results@),
                wanted == result_titles(found),
                titles@.len() == i,
                forall|k: int| 0 <= k < i ==> (#[trigger] titles@[k])@ == wanted[k],
            decreases n - i,
        {
            assert(found[i as int] == results@[i as int]@);
            titles.push(text::chars_of(results[i].title.as_str()));
            i += 1;
        }
        assert(text::views(titles@) =~= wanted);
        let places = order::order_by_text(&titles);
        arrange(results, &places, limit, offset)
    } else {
        let mut places: Vec<usize> = Vec::new();
        let mut i: usize = 0;
        while i < n
            invariant
                i <= n,
                places@.len() == i,
                forall|k: int| 0 <= k < i ==> (#[trigger] places@[k]) == k,
            decreases n - i,
        {
            places.push(i);
            i += 1;
        }
        proof {
            let ps = order::ints(places@);
            assert forall|k: int| 0 <= k < n implies #[trigger] ps.contains(k) by {
                assert(ps[k] == k);
            }
            assert(order::arranged(found, ps) =~= found);
        }
        arrange(results, &places, limit, offset)
    }
}

/// Runs a full-text search, given the matching rows of the index best first.
///
/// Each document is one result, and there is a page of them: ordered by rank
/// (best first), or newest first where `sort` is `date`, or by title where it is
/// `title`. The first `offset` results are skipped, and at most `limit` are
/// returned.
pub fn fts_search(
    store: &Db,
    ranked: &Vec<ChunkMatch>,
    limit: usize,
    offset: usize,
    collection: Option<&str>,
    with_snippets: bool,
    sort: &str,
) -> (r: Vec<SearchResult>)
    ensures
        table::rows(r@) == result_page(
            store@,
            db::fts_found(store@, table::rows(ranked@), db::opt_str(collection), with_snippets),
            limit as int,
            offset as int,
            sort@,
        ),
{
    let rows: usize = ranked.len();
    let results = store.fts_search(ranked, rows, collection, with_snippets);
    proof {
        let col = db::opt_str(collection);
        let views = table::rows(ranked@);
        lemma_results_len(store@, views, col, with_snippets, rows as int);
        lemma_once_len(db::results_upto(store@, views, col, with_snippets, rows as int));
    }
    page_results(store, &results, limit, offset, sort)
}

// ---------------------------------------------------------------------------
// Laws
// ---------------------------------------------------------------------------

/// Each document is found once at most, and each result is one of the rows'.
pub proof fn each_document_is_found_once(results: Seq<SearchResultView>)
    ensures
        ({
            let kept = db::one_per_document(results);
            &&& forall|i: int, j: int|
                0 <= i < j < kept.len() ==> (#[trigger] kept[i]).doc_id != (
                #[trigger] kept[j]).doc_id
            &&& forall|id: Seq<char>| #[trigger]
                db::has_result(kept, id) == db::has_result(results, id)
        }),
    decreases results.len(),
{
    let kept = db::one_per_document(results);
    if results.len() > 0 {
        let front = results.drop_last();
        let before = db::one_per_document(front);
        each_document_is_found_once(front);
        assert forall|i: int, j: int| 0 <= i < j < kept.len() implies (#[trigger] kept[i]).doc_id
            != (#[trigger] kept[j]).doc_id by {
            if j == before.len() {
                if before[i].doc_id == results.last().doc_id {
                    assert(db::has_result(before, results.last().doc_id));
                }
            } else {
                assert(kept[i] == before[i]);
                assert(kept[j] == before[j]);
            }
        }
        assert forall|id: Seq<char>| #[trigger]
            db::has_result(kept, id) == db::has_result(results, id) by {
            assert(db::has_result(before, id) == db::has_result(front, id));
            if db::has_result(results, id) {
                let i = choose|i: int| 0 <= i < results.len() && (#[trigger] results[i]).doc_id == id;
                if i < front.len() {
                    assert(front[i].doc_id == id);
                }
                if db::has_result(front, id) {
                    let k = choose|k: int|
                        0 <= k < before.len() && (#[trigger] before[k]).doc_id == id;
                    assert(kept[k].doc_id == id);
                } else {
                    assert(kept[before.len() as int].doc_id == id);
                }
            }
            if db::has_result(kept, id) {
                let k = choose|k: int| 0 <= k < kept.len() && (#[trigger] kept[k]).doc_id == id;
                if k < before.len() {
                    assert(before[k].doc_id == id);
                    let i = choose|i: int| 0 <= i < front.len() && (#[trigger] front[i]).doc_id == id;
                    assert(results[i].doc_id == id);
                } else {
                    assert(results[results.len() - 1].doc_id == id);
                }
            }
        }
    } else {
        assert forall|id: Seq<char>| #[trigger]
            db::has_result(kept, id) == db::has_result(results, id) by {
            assert(kept =~= results);
        }
    }
}

/// Exactly one of less, equal and greater holds of two texts, so a filter and
/// its opposite never agree.
pub proof fn opposite_filters_disagree(actual: Seq<char>, expected: Seq<char>)
    ensures
        holds_of_texts(WhereOp::Equal, actual, expected) != holds_of_texts(
            WhereOp::Unequal,
            actual,
            expected,
        ),
        holds_of_texts(WhereOp::Less, actual, expected) != holds_of_texts(
            WhereOp::AtLeast,
            actual,
            expected,
        ),
        holds_of_texts(WhereOp::Greater, actual, expected) != holds_of_texts(
            WhereOp::AtMost,
            actual,
            expected,
        ),
{
    text::lemma_lex_less_total(actual, expected);
    text::lemma_lex_less_total(expected, actual);
}

/// Whether a comparison of two numbers is decided: they are near or far, and
/// exactly one of less, equal and greater holds. It is wherever both are finite.
pub open spec fn is_decided(c: NumericComparison) -> bool {
    &&& c.near != c.far
    &&& c.less || c.equal || c.greater
    &&& !(c.less && c.equal) && !(c.less && c.greater) && !(c.equal && c.greater)
}

/// A filter on numbers and its opposite never agree.
pub proof fn opposite_numeric_filters_disagree(c: NumericComparison)
    requires
        is_decided(c),
    ensures
        holds_of_numbers(WhereOp::Equal, c) != holds_of_numbers(WhereOp::Unequal, c),
        holds_of_numbers(WhereOp::Less, c) != holds_of_numbers(WhereOp::AtLeast, c),
        holds_of_numbers(WhereOp::Greater, c) != holds_of_numbers(WhereOp::AtMost, c),
{
}

/// A query for keywords is the same with and without its prefix.
pub proof fn keywords_are_the_default(raw: Seq<char>)
    requires
        !text::begins_with(text::trimmed(raw), "lex:"@),
        !text::begins_with(text::trimmed(raw), "vec:"@),
        !text::begins_with(text::trimmed(raw), "intent:"@),
    ensures
        query_of(raw) == QueryView::Lex(text::trimmed(raw)),
        query_of("lex: "@ + raw) == QueryView::Lex(text::trimmed(raw)),
{
    reveal_strlit("lex: ");
    reveal_strlit("lex:");
    reveal_strlit("vec:");
    reveal_strlit("intent:");
    let long = "lex: "@ + raw;
    let (a, b) = text::lemma_trimmed_ends(raw);
    let end = if a < b {
        b + 5
    } else {
        4
    };
    assert(!text::is_white('l') && !text::is_white(':') && text::is_white(' '));
    assert forall|i: int| end <= i < long.len() implies text::is_white(#[trigger] long[i]) by {
        if i >= 5 {
            assert(long[i] == raw[i - 5]);
            if a == b && i - 5 < a {
                assert(text::is_white(raw[i - 5]));
            }
        }
    }
    text::lemma_trimmed_is(long, 0, end);
    let q = text::trimmed(long);
    assert(q == long.subrange(0, end));
    assert(q.subrange(0, 4) =~= "lex:"@);
    if text::begins_with(q, "intent:"@) {
        assert(q.subrange(0, "intent:"@.len() as int)[0] == 'i');
    }
    if text::begins_with(q, "vec:"@) {
        assert(q.subrange(0, "vec:"@.len() as int)[0] == 'v');
    }
    let rest = q.skip(4);
    if a < b {
        assert(rest.len() == b + 1);
        assert forall|i: int| 0 <= i < a + 1 implies text::is_white(#[trigger] rest[i]) by {
            if i > 0 {
                assert(rest[i] == raw[i - 1]);
            }
        }
        assert(rest[a + 1] == raw[a] && rest[b] == raw[b - 1]);
        text::lemma_trimmed_is(rest, a + 1, b + 1);
        assert(rest.subrange(a + 1, b + 1) =~= raw.subrange(a, b));
    } else {
        text::lemma_trimmed_is(rest, 0, 0);
        assert(rest.subrange(0, 0) =~= raw.subrange(a, b));
    }
}

/// A page of a search holds the results from place `offset` on, `limit` of them at
/// most.
pub proof fn search_pages_cut_the_results(
    store: DbView,
    results: Seq<SearchResultView>,
    limit: int,
    offset: int,
    sort: Seq<char>,
)
    requires
        0 <= limit,
        0 <= offset,
    ensures
        ({
            let all = sorted_results(store, results, sort);
            let page = result_page(store, results, limit, offset, sort);
            &&& page.len() <= limit
            &&& forall|k: int|
                0 <= k < page.len() ==> offset + k < all.len() && #[trigger] page[k] == all[offset
                    + k]
            &&& page.len() < limit ==> page.len() + offset >= all.len()
        }),
{
}

/// Two pages of a search in a row are one page of both, in whatever order.
pub proof fn search_pages_join(
    store: DbView,
    results: Seq<SearchResultView>,
    a: int,
    b: int,
    offset: int,
    sort: Seq<char>,
)
    requires
        0 <= a,
        0 <= b,
        0 <= offset,
    ensures
        result_page(store, results, a, offset, sort) + result_page(
            store,
            results,
            b,
            offset + a,
            sort,
        ) == result_page(store, results, a + b, offset, sort),
{
    assert(result_page(store, results, a, offset, sort) + result_page(
        store,
        results,
        b,
        offset + a,
        sort,
    ) =~= result_page(store, results, a + b, offset, sort));
}

// ---------------------------------------------------------------------------
// What filters and queries ask for
// ---------------------------------------------------------------------------

/// Whether `c` tells how two numbers compare, which stand `a` and `b` units from
/// zero and are near each other where fewer than `hair` units lie between them.
pub open spec fn is_comparison_of(c: NumericComparison, a: int, b: int, hair: int) -> bool {
    &&& c.less <==> a < b
    &&& c.equal <==> a == b
    &&& c.greater <==> a > b
    &&& c.near <==> (a - b < hair && b - a < hair)
    &&& c.far <==> (a - b >= hair || b - a >= hair)
}

/// Whether a filter lets through the first of two numbers, compared to the second.
pub open spec fn is_numeric_answer(op: WhereOp, c: NumericComparison, r: bool) -> bool {
    forall|a: int, b: int, hair: int| #[trigger]
        is_comparison_of(c, a, b, hair) ==> {
            &&& op == WhereOp::Less ==> (r <==> a < b)
            &&& op == WhereOp::Greater ==> (r <==> b < a)
            &&& op == WhereOp::AtLeast ==> (r <==> b <= a)
            &&& op == WhereOp::AtMost ==> (r <==> a <= b)
            &&& op == WhereOp::Equal ==> (r <==> -hair < a - b < hair)
            &&& op == WhereOp::Unequal ==> (r <==> !(-hair < a - b < hair))
        }
}

/// Of two finite numbers a filter holds exactly where its sign says so: `<` where
/// the first is less, `>` where it is greater, `>=` and `<=` where it is at least or
/// at most the other, `=` where they are near each other and `!=` where they are not.
pub proof fn numeric_filters_follow_the_order(
    op: WhereOp,
    c: NumericComparison,
    a: int,
    b: int,
    hair: int,
)
    requires
        is_comparison_of(c, a, b, hair),
    ensures
        is_numeric_answer(op, c, holds_of_numbers(op, c)),
        holds_of_numbers(WhereOp::Less, c) <==> a < b,
        holds_of_numbers(WhereOp::Greater, c) <==> a > b,
        holds_of_numbers(WhereOp::AtLeast, c) <==> a >= b,
        holds_of_numbers(WhereOp::AtMost, c) <==> a <= b,
        holds_of_numbers(WhereOp::Equal, c) <==> -hair < a - b < hair,
        holds_of_numbers(WhereOp::Unequal, c) <==> !(-hair < a - b < hair),
{
}

/// Whether `a` comes before `b` in a dictionary: it is the beginning of `b`, or has
/// the lesser character at the first place where they differ.
pub open spec fn comes_before(a: Seq<char>, b: Seq<char>) -> bool {
    exists|k: int| #[trigger] differ_at(a, b, k)
}

/// Whether two texts are the same up to `k`, where `a` ends or has the lesser
/// character.
pub open spec fn differ_at(a: Seq<char>, b: Seq<char>, k: int) -> bool {
    &&& 0 <= k <= a.len()
    &&& k < b.len()
    &&& a.take(k) == b.take(k)
    &&& k < a.len() ==> (a[k] as u32) < (b[k] as u32)
}

/// The order of texts is that of a dictionary.
pub proof fn texts_are_ordered_as_in_a_dictionary(a: Seq<char>, b: Seq<char>)
    ensures
        text::lex_less(a, b) <==> comes_before(a, b),
    decreases a.len(),
{
    if a.len() == 0 {
        if b.len() > 0 {
            assert(a.take(0) =~= b.take(0));
            assert(differ_at(a, b, 0));
        }
    } else if b.len() > 0 {
        let (x, y) = (a.skip(1), b.skip(1));
        texts_are_ordered_as_in_a_dictionary(x, y);
        if text::lex_less(a, b) {
            if a[0] == b[0] {
                let k = choose|k: int| #[trigger] differ_at(x, y, k);
                assert(a.take(k + 1) =~= b.take(k + 1)) by {
                    assert forall|i: int| 0 <= i < k + 1 implies a[i] == b[i] by {
                        if i > 0 {
                            assert(x.take(k)[i - 1] == y.take(k)[i - 1]);
                        }
                    }
                }
                assert(differ_at(a, b, k + 1));
            } else {
                assert(a.take(0) =~= b.take(0));
                assert(differ_at(a, b, 0));
            }
        }
        if comes_before(a, b) {
            let k = choose|k: int| #[trigger] differ_at(a, b, k);
            if k > 0 {
                assert(a.take(k)[0] == b.take(k)[0]);
                assert(x.take(k - 1) =~= y.take(k - 1)) by {
                    assert forall|i: int| 0 <= i < k - 1 implies x[i] == y[i] by {
                        assert(a.take(k)[i + 1] == b.take(k)[i + 1]);
                    }
                }
                assert(differ_at(x, y, k - 1));
            }
        }
    } else if comes_before(a, b) {
        let k = choose|k: int| #[trigger] differ_at(a, b, k);
    }
}

/// Whether a filter lets through the first of two texts, compared to the second.
pub open spec fn is_text_answer(
    op: WhereOp,
    actual: Seq<char>,
    expected: Seq<char>,
    r: bool,
) -> bool {
    &&& op == WhereOp::Equal ==> (r <==> actual == expected)
    &&& op == WhereOp::Unequal ==> (r <==> actual != expected)
    &&& op == WhereOp::Less ==> (r <==> comes_before(actual, expected))
    &&& op == WhereOp::Greater ==> (r <==> comes_before(expected, actual))
    &&& op == WhereOp::AtLeast ==> (r <==> !comes_before(actual, expected))
    &&& op == WhereOp::AtMost ==> (r <==> !comes_before(expected, actual))
}

/// Of two texts a filter holds exactly where its sign says so of their places in a
/// dictionary.
pub proof fn text_filters_follow_the_order(
    op: WhereOp,
    actual: Seq<char>,
    expected: Seq<char>,
)
    ensures
        is_text_answer(op, actual, expected, holds_of_texts(op, actual, expected)),
{
    texts_are_ordered_as_in_a_dictionary(actual, expected);
    texts_are_ordered_as_in_a_dictionary(expected, actual);
    text::lemma_lex_less_total(actual, expected);
    text::lemma_lex_less_total(expected, actual);
}

/// A prefix chooses how a query is searched for: by keywords, by meaning, or not at
/// all. What follows it is the query, trimmed.
pub proof fn prefixes_choose_the_search(raw: Seq<char>)
    ensures
        query_of("lex:"@ + raw) == QueryView::Lex(text::trimmed(raw)),
        query_of("vec:"@ + raw) == QueryView::Vec(text::trimmed(raw)),
        query_of("intent:"@ + raw) == QueryView::Intent(text::trimmed(raw)),
{
    reveal_strlit("lex:");
    reveal_strlit("vec:");
    reveal_strlit("intent:");
    assert(!text::is_white('l') && !text::is_white('v') && !text::is_white('i')
        && !text::is_white(':'));
    lemma_prefixed("lex:"@, raw);
    lemma_prefixed("vec:"@, raw);
    lemma_prefixed("intent:"@, raw);
    let q = text::trimmed("lex:"@ + raw);
    assert(q.subrange(0, "lex:"@.len() as int)[0] == 'l');
    if text::begins_with(q, "intent:"@) {
        assert(q.subrange(0, "intent:"@.len() as int)[0] == 'i');
    }
    if text::begins_with(q, "vec:"@) {
        assert(q.subrange(0, "vec:"@.len() as int)[0] == 'v');
    }
    let v = text::trimmed("vec:"@ + raw);
    assert(v.subrange(0, "vec:"@.len() as int)[0] == 'v');
    if text::begins_with(v, "intent:"@) {
        assert(v.subrange(0, "intent:"@.len() as int)[0] == 'i');
    }
}

/// A query with a prefix, trimmed, begins with the prefix.
proof fn lemma_prefixed(prefix: Seq<char>, raw: Seq<char>)
    requires
        prefix.len() > 0,
        !text::is_white(prefix[0]),
        !text::is_white(prefix.last()),
    ensures
        text::begins_with(text::trimmed(prefix + raw), prefix),
        text::trimmed(text::trimmed(prefix + raw).skip(prefix.len() as int)) == text::trimmed(raw),
{
    let n = prefix.len() as int;
    let long = prefix + raw;
    let (a, b) = text::lemma_trimmed_ends(raw);
    let end = if a < b {
        b + n
    } else {
        n
    };
    assert forall|i: int| end <= i < long.len() implies text::is_white(#[trigger] long[i]) by {
        assert(long[i] == raw[i - n]);
        if a == b && i - n < a {
            assert(text::is_white(raw[i - n]));
        }
    }
    if a < b {
        assert(long[end - 1] == raw[b - 1]);
    } else {
        assert(long[end - 1] == prefix.last());
    }
    text::lemma_trimmed_is(long, 0, end);
    let q = text::trimmed(long);
    assert(q == long.subrange(0, end));
    assert(q.subrange(0, n) =~= prefix);
    let rest = q.skip(n);
    if a < b {
        assert forall|i: int| 0 <= i < a implies text::is_white(#[trigger] rest[i]) by {
            assert(rest[i] == raw[i]);
        }
        assert(rest[a] == raw[a] && rest[b - 1] == raw[b - 1]);
        text::lemma_trimmed_is(rest, a, b);
        assert(rest.subrange(a, b) =~= raw.subrange(a, b));
    } else {
        text::lemma_trimmed_is(rest, 0, 0);
        assert(rest.subrange(0, 0) =~= raw.subrange(a, b));
    }
}

/// How a comparison is written.
pub open spec fn sign_of(op: WhereOp) -> Seq<char> {
    match op {
        WhereOp::AtLeast => seq!['>', '='],
        WhereOp::AtMost => seq!['<', '='],
        WhereOp::Unequal => seq!['!', '='],
        WhereOp::Greater => seq!['>'],
        WhereOp::Less => seq!['<'],
        WhereOp::Equal => seq!['='],
    }
}

/// Whether a text holds no character of a comparison.
pub open spec fn has_no_sign(s: Seq<char>) -> bool {
    !s.contains('<') && !s.contains('>') && !s.contains('=') && !s.contains('!')
}

/// A filter is read as its field, its comparison and its value, each without the white
/// space around it.
pub proof fn filters_are_read(field: Seq<char>, op: WhereOp, value: Seq<char>)
    requires
        has_no_sign(field),
        has_no_sign(value),
    ensures
        where_of(field + sign_of(op) + value) == Some(
            (WhereView { field: text::trimmed(field), op, value: text::trimmed(value) }),
        ),
{
    reveal_strlit(">=");
    reveal_strlit("<=");
    reveal_strlit("!=");
    reveal_strlit(">");
    reveal_strlit("<");
    reveal_strlit("=");
    let sign = sign_of(op);
    let expr = field + sign + value;
    let n = field.len() as int;
    let m = sign.len() as int;
    let (a, b) = text::lemma_trimmed_ends(expr);
    assert(!text::is_white('<') && !text::is_white('>') && !text::is_white('=')
        && !text::is_white('!'));
    assert(expr[n] == sign[0]);
    assert(expr[n + m - 1] == sign[m - 1]);
    assert(a <= n);
    assert(n + m <= b);
    let e = text::trimmed(expr);
    let f = field.skip(a);
    let v = value.take(b - n - m);
    assert(e == expr.subrange(a, b));
    assert(e =~= f + sign + v);
    assert forall|i: int| 0 <= i < a implies text::is_white(#[trigger] field[i]) by {
        assert(expr[i] == field[i]);
    }
    assert forall|i: int| v.len() <= i < value.len() implies text::is_white(
        #[trigger] value[i],
    ) by {
        assert(expr[n + m + i] == value[i]);
    }
    lemma_trimmed_front(field, a);
    lemma_trimmed_back(value, v.len() as int);
    assert forall|i: int| 0 <= i < f.len() implies f[i] != '<' && f[i] != '>' && f[i] != '='
        && f[i] != '!' by {
        assert(field.contains(field[a + i]));
    }
    assert forall|i: int| 0 <= i < v.len() implies v[i] != '<' && v[i] != '>' && v[i] != '='
        && v[i] != '!' by {
        assert(value.contains(value[i]));
    }
    let k = f.len() as int;
    assert forall|i: int| 0 <= i < e.len() && i != k && i != k + m - 1 implies e[i] != '<' && e[i]
        != '>' && e[i] != '=' && e[i] != '!' by {
        if i < k {
            assert(e[i] == f[i]);
        } else {
            assert(e[i] == v[i - k - m]);
        }
    }
    assert(e[k] == sign[0] && e[k + m - 1] == sign[m - 1]);
    assert(">="@ =~= seq!['>', '='] && "<="@ =~= seq!['<', '='] && "!="@ =~= seq!['!', '=']);
    assert(">"@ =~= seq!['>'] && "<"@ =~= seq!['<'] && "="@ =~= seq!['=']);
    lemma_found_sign(e, sign, k);
    assert(e.take(k) =~= f);
    assert(e.skip(k + m) =~= v);
    match op {
        WhereOp::AtLeast => {},
        WhereOp::AtMost => {
            lemma_lost_sign(e, ">="@, '>', 0);
        },
        WhereOp::Unequal => {
            lemma_lost_sign(e, ">="@, '>', 0);
            lemma_lost_sign(e, "<="@, '<', 0);
        },
        WhereOp::Greater => {
            lemma_lost_sign(e, ">="@, '=', 1);
            lemma_lost_sign(e, "<="@, '<', 0);
            lemma_lost_sign(e, "!="@, '!', 0);
        },
        WhereOp::Less => {
            lemma_lost_sign(e, ">="@, '>', 0);
            lemma_lost_sign(e, "<="@, '=', 1);
            lemma_lost_sign(e, "!="@, '!', 0);
            lemma_lost_sign(e, ">"@, '>', 0);
        },
        WhereOp::Equal => {
            lemma_lost_sign(e, ">="@, '>', 0);
            lemma_lost_sign(e, "<="@, '<', 0);
            lemma_lost_sign(e, "!="@, '!', 0);
            lemma_lost_sign(e, ">"@, '>', 0);
            lemma_lost_sign(e, "<"@, '<', 0);
        },
    }
}

/// A sign is found at its first place.
proof fn lemma_found_sign(e: Seq<char>, sign: Seq<char>, k: int)
    requires
        1 <= sign.len() <= 2,
        0 <= k,
        k + sign.len() <= e.len(),
        e[k] == sign[0],
        e[k + sign.len() - 1] == sign.last(),
        forall|i: int| 0 <= i < k ==> #[trigger] e[i] != sign[0],
    ensures
        text::find_in(e, sign) == Some(k),
{
    text::lemma_find_from(e, sign, 0);
    assert(e.subrange(k, k + sign.len()) =~= sign);
    assert(text::occurs_at(e, sign, k));
    assert forall|i: int| 0 <= i < k implies !text::occurs_at(e, sign, i) by {
        if text::occurs_at(e, sign, i) {
            assert(e.subrange(i, i + sign.len())[0] == sign[0]);
        }
    }
}

/// A sign is not found in a text that lacks one of its characters.
proof fn lemma_lost_sign(e: Seq<char>, sign: Seq<char>, c: char, at: int)
    requires
        0 <= at < sign.len(),
        sign[at] == c,
        forall|i: int| 0 <= i < e.len() ==> #[trigger] e[i] != c,
    ensures
        text::find_in(e, sign) is None,
{
    text::lemma_find_from(e, sign, 0);
    if let Some(i) = text::find_in(e, sign) {
        assert(e.subrange(i, i + sign.len())[at] == sign[at]);
    }
}

/// Trimming does not see white space at the front.
proof fn lemma_trimmed_front(s: Seq<char>, n: int)
    requires
        0 <= n <= s.len(),
        forall|i: int| 0 <= i < n ==> text::is_white(#[trigger] s[i]),
    ensures
        text::trimmed(s.skip(n)) == text::trimmed(s),
    decreases n,
{
    if n > 0 {
        assert(text::is_white(s[0]));
        let rest = s.skip(1);
        assert forall|i: int| 0 <= i < n - 1 implies text::is_white(#[trigger] rest[i]) by {
            assert(rest[i] == s[i + 1]);
        }
        lemma_trimmed_front(rest, n - 1);
        assert(rest.skip(n - 1) =~= s.skip(n));
    } else {
        assert(s.skip(0) =~= s);
    }
}

/// Trimming does not see white space at the end.
proof fn lemma_trimmed_back(s: Seq<char>, n: int)
    requires
        0 <= n <= s.len(),
        forall|i: int| n <= i < s.len() ==> text::is_white(#[trigger] s[i]),
    ensures
        text::trimmed(s.take(n)) == text::trimmed(s),
{
    let t = s.take(n);
    let (a, b) = text::lemma_trimmed_ends(t);
    if a < b {
        assert forall|i: int| b <= i < s.len() implies text::is_white(#[trigger] s[i]) by {
            if i < n {
                assert(text::is_white(t[i]));
            }
        }
        assert forall|i: int| 0 <= i < a implies text::is_white(#[trigger] s[i]) by {
            assert(text::is_white(t[i]));
        }
        assert(s[a] == t[a] && s[b - 1] == t[b - 1]);
        text::lemma_trimmed_is(s, a, b);
        assert(s.subrange(a, b) =~= t.subrange(a, b));
    } else {
        assert(text::is_blank(s)) by {
            assert forall|i: int| 0 <= i < s.len() implies text::is_white(#[trigger] s[i]) by {
                if i < n {
                    assert(text::is_white(t[i]));
                }
            }
        }
        text::lemma_trimmed_blank(s);
        text::lemma_trimmed_blank(t);
        assert(text::trimmed(s) =~= text::trimmed(t));
    }
}

/// An expression without a comparison is no filter.
pub proof fn other_texts_are_no_filters(expr: Seq<char>)
    requires
        has_no_sign(expr),
    ensures
        where_of(expr) is None,
{
    reveal_strlit(">=");
    reveal_strlit("<=");
    reveal_strlit("!=");
    reveal_strlit(">");
    reveal_strlit("<");
    reveal_strlit("=");
    let e = text::trimmed(expr);
    let (a, b) = text::lemma_trimmed_part(expr);
    assert forall|i: int| 0 <= i < e.len() implies e[i] != '<' && e[i] != '>' && e[i] != '='
        && e[i] != '!' by {
        assert(expr.contains(expr[a + i]));
    }
    lemma_lost_sign(e, ">="@, '>', 0);
    lemma_lost_sign(e, "<="@, '<', 0);
    lemma_lost_sign(e, "!="@, '!', 0);
    lemma_lost_sign(e, ">"@, '>', 0);
    lemma_lost_sign(e, "<"@, '<', 0);
    lemma_lost_sign(e, "="@, '=', 0);
}

/// The fields of a document are found by their names: its collection, its path, its
/// title, and the entries of its frontmatter, the first of several with one key; what
/// it does not have is empty.
pub proof fn fields_are_found_by_name(doc: DocumentView, field: Seq<char>)
    ensures
        value_of(doc, "collection"@) == doc.collection,
        value_of(doc, "path"@) == doc.path,
        value_of(doc, "title"@) == doc.title,
        field != "collection"@ && field != "path"@ && field != "title"@ ==> {
            &&& forall|i: int|
                0 <= i < doc.frontmatter.len() && (#[trigger] doc.frontmatter[i]).0 == field
                    && doc.frontmatter[i].1 is Some && (forall|j: int|
                    0 <= j < i ==> (#[trigger] doc.frontmatter[j]).0 != field) ==> value_of(
                    doc,
                    field,
                ) == doc.frontmatter[i].1.unwrap()
            &&& (forall|j: int|
                0 <= j < doc.frontmatter.len() ==> (#[trigger] doc.frontmatter[j]).0 != field)
                ==> value_of(doc, field).len() == 0
        },
{
    reveal_strlit("collection");
    reveal_strlit("path");
    reveal_strlit("title");
    assert("collection"@.len() == 10 && "path"@.len() == 4 && "title"@.len() == 5);
    let all = doc.frontmatter;
    if field != "collection"@ && field != "path"@ && field != "title"@ {
        assert forall|i: int|
            0 <= i < all.len() && (#[trigger] all[i]).0 == field && all[i].1 is Some && (forall|
                j: int,
            |
                0 <= j < i ==> (#[trigger] all[j]).0 != field) implies value_of(doc, field)
            == all[i].1.unwrap() by {
            lemma_named(all, field, i);
        }
        if forall|j: int| 0 <= j < all.len() ==> (#[trigger] all[j]).0 != field {
            lemma_unnamed(all, field);
        }
    }
}

proof fn lemma_named(fields: Seq<FieldView>, key: Seq<char>, i: int)
    requires
        0 <= i < fields.len(),
        fields[i].0 == key,
        forall|j: int| 0 <= j < i ==> (#[trigger] fields[j]).0 != key,
    ensures
        named_value(fields, key) == value_text(fields[i].1, fields[i].2),
    decreases i,
{
    if i > 0 {
        let rest = fields.skip(1);
        assert(fields[0].0 != key);
        assert forall|j: int| 0 <= j < i - 1 implies (#[trigger] rest[j]).0 != key by {
            assert(fields[j + 1].0 != key);
        }
        lemma_named(rest, key, i - 1);
    }
}

proof fn lemma_unnamed(fields: Seq<FieldView>, key: Seq<char>)
    requires
        forall|j: int| 0 <= j < fields.len() ==> (#[trigger] fields[j]).0 != key,
    ensures
        named_value(fields, key).len() == 0,
    decreases fields.len(),
{
    if fields.len() > 0 {
        let rest = fields.skip(1);
        assert forall|j: int| 0 <= j < rest.len() implies (#[trigger] rest[j]).0 != key by {
            assert(fields[j + 1].0 != key);
        }
        lemma_unnamed(rest, key);
    }
}

/// When the document of a result was added, where the store holds it.
pub open spec fn is_instant_of(store: DbView, doc_id: Seq<char>, at: int) -> bool {
    exists|d: int|
        0 <= d < store.documents.len() && (#[trigger] store.documents[d]).id == doc_id && at
            == document::instant(store.documents[d].added_at) && forall|e: int|
            0 <= e < d ==> (#[trigger] store.documents[e]).id != doc_id
}

/// Sorting keeps the results, each as often as it was found: by date the newest come
/// first, by title they come as in a dictionary, and otherwise they stay as they are.
pub proof fn results_are_sorted_as_asked(
    store: DbView,
    results: Seq<SearchResultView>,
    sort: Seq<char>,
)
    ensures
        ({
            let sorted = sorted_results(store, results, sort);
            &&& sorted.len() == results.len()
            &&& sorted.to_multiset() == results.to_multiset()
            &&& sort == "date"@ ==> forall|i: int, j: int, a: int, b: int|
                #![trigger is_instant_of(store, sorted[i].doc_id, a), is_instant_of(
                    store,
                    sorted[j].doc_id,
                    b,
                )]
                0 <= i < j < sorted.len() && is_instant_of(store, sorted[i].doc_id, a)
                    && is_instant_of(store, sorted[j].doc_id, b) ==> a >= b
            &&& sort == "title"@ ==> forall|i: int, j: int|
                0 <= i < j < sorted.len() ==> !comes_before(
                    (#[trigger] sorted[j]).title,
                    (#[trigger] sorted[i]).title,
                )
            &&& sort != "date"@ && sort != "title"@ ==> sorted == results
        }),
{
    reveal_strlit("date");
    reveal_strlit("title");
    assert("date"@.len() == 4 && "title"@.len() == 5);
    let sorted = sorted_results(store, results, sort);
    if sort == "date"@ {
        let keys = result_instants(store, results);
        let r = order::the_order(results.len() as int, order::by_key_desc(keys));
        order::sorting_is_stable(results, keys);
        order::lemma_arranged_multiset(results, r);
        assert forall|i: int, j: int, a: int, b: int|
            #![trigger is_instant_of(store, sorted[i].doc_id, a), is_instant_of(
                store,
                sorted[j].doc_id,
                b,
            )]
            0 <= i < j < sorted.len() && is_instant_of(store, sorted[i].doc_id, a)
                && is_instant_of(store, sorted[j].doc_id, b) implies a >= b by {
            assert(0 <= r[i] < results.len() && 0 <= r[j] < results.len());
            lemma_instant(store, results, r[i], a);
            lemma_instant(store, results, r[j], b);
        }
    } else if sort == "title"@ {
        let keys = result_titles(results);
        let r = order::the_order(results.len() as int, order::by_text(keys));
        order::sorting_by_text_is_stable(results, keys);
        order::lemma_arranged_multiset(results, r);
        assert forall|i: int, j: int| 0 <= i < j < sorted.len() implies !comes_before(
            (#[trigger] sorted[j]).title,
            (#[trigger] sorted[i]).title,
        ) by {
            assert(0 <= r[i] < results.len() && 0 <= r[j] < results.len());
            texts_are_ordered_as_in_a_dictionary(sorted[j].title, sorted[i].title);
            text::lemma_lex_less_total(sorted[j].title, sorted[i].title);
        }
    }
}

proof fn lemma_instant(store: DbView, results: Seq<SearchResultView>, i: int, at: int)
    requires
        0 <= i < results.len(),
        is_instant_of(store, results[i].doc_id, at),
    ensures
        result_instants(store, results)[i] == at,
{
    let id = results[i].doc_id;
    let d = choose|d: int|
        0 <= d < store.documents.len() && (#[trigger] store.documents[d]).id == id && at
            == document::instant(store.documents[d].added_at) && forall|e: int|
            0 <= e < d ==> (#[trigger] store.documents[e]).id != id;
    let p = db::doc_has_id(id);
    assert forall|e: int| 0 <= e < d implies !p(#[trigger] store.documents[e]) by {}
    table::lemma_is_first(store.documents, p, d);
}

/// A query without a minus sign is handed on as it is.
pub proof fn plain_queries_stay(query: Seq<char>)
    requires
        !query.contains('-'),
    ensures
        fts5_of(query) == query,
{
    let all = terms_of(query);
    lemma_terms_part(query);
    lemma_nothing_excluded(all, all.len() as int);
}

/// The characters of a query's terms are the query's.
proof fn lemma_terms_part(s: Seq<char>)
    requires
        !s.contains('-'),
    ensures
        forall|i: int|
            0 <= i < terms_of(s).len() ==> !(#[trigger] terms_of(s)[i]).contains('-'),
    decreases s.len(),
{
    if s.len() > 0 {
        let n = if text::is_white(s[0]) {
            1
        } else {
            term_end(s, false) as int
        };
        lemma_term_end(s, false);
        let rest = s.skip(n);
        assert forall|i: int| 0 <= i < rest.len() implies rest[i] != '-' by {
            assert(s.contains(s[n + i]));
        }
        lemma_terms_part(rest);
        if !text::is_white(s[0]) {
            let first = s.take(n);
            assert(!first.contains('-')) by {
                assert forall|i: int| 0 <= i < first.len() implies first[i] != '-' by {
                    assert(s.contains(s[i]));
                }
            }
            assert(terms_of(s) == seq![first] + terms_of(rest));
            assert forall|i: int| 0 <= i < terms_of(s).len() implies !(#[trigger] terms_of(
                s,
            )[i]).contains('-') by {
                if i > 0 {
                    assert(terms_of(s)[i] == terms_of(rest)[i - 1]);
                }
            }
        }
    }
}

proof fn lemma_nothing_excluded(terms: Seq<Seq<char>>, n: int)
    requires
        0 <= n <= terms.len(),
        forall|i: int| 0 <= i < terms.len() ==> !(#[trigger] terms[i]).contains('-'),
    ensures
        terms_apart(terms, true, n).len() == 0,
    decreases n,
{
    if n > 0 {
        lemma_nothing_excluded(terms, n - 1);
        if is_exclusion(terms, n - 1) {
            assert(terms[n - 1].contains(terms[n - 1][0]));
        }
    }
}

/// Whether a text is a word of a query: without white space, quotation marks and the
/// signs of the index's own syntax.
pub open spec fn is_query_word(s: Seq<char>) -> bool {
    &&& s.len() > 0
    &&& s != "AND"@ && s != "OR"@ && s != "NOT"@
    &&& forall|i: int|
        0 <= i < s.len() ==> !text::is_white(#[trigger] s[i]) && s[i] != '"' && s[i] != '(' && s[i]
            != ')' && s[i] != ':' && s[i] != '{'
}

/// A word with a minus sign before it is excluded from what the word before it asks
/// for.
pub proof fn minus_signs_exclude(wanted: Seq<char>, unwanted: Seq<char>)
    requires
        is_query_word(wanted),
        wanted[0] != '-',
        is_query_word(unwanted),
    ensures
        fts5_of(wanted + seq![' ', '-'] + unwanted) == seq!['('] + wanted + seq![
            ')',
            ' ',
            'N',
            'O',
            'T',
            ' ',
        ] + unwanted,
{
    reveal_strlit("AND");
    reveal_strlit("OR");
    reveal_strlit("NOT");
    reveal_strlit("(");
    reveal_strlit(")");
    reveal_strlit(" ");
    reveal_strlit(" NOT ");
    let query = wanted + seq![' ', '-'] + unwanted;
    let second = seq!['-'] + unwanted;
    let n = wanted.len() as int;
    assert(text::is_white(' ') && !text::is_white('-'));
    lemma_word_end(query, n);
    assert(query.take(n) =~= wanted);
    let rest = query.skip(n);
    assert(rest[0] == ' ');
    assert(rest.skip(1) =~= second);
    lemma_word_end(second, second.len() as int);
    assert(second.take(second.len() as int) =~= second);
    assert(second.skip(second.len() as int) =~= Seq::empty());
    reveal_with_fuel(terms_of, 2);
    assert(terms_of(second) =~= seq![second]);
    assert(terms_of(rest) == terms_of(second));
    let all = terms_of(query);
    assert(query[0] == wanted[0]);
    assert(all =~= seq![wanted, second]);
    lemma_no_bare(wanted, '(', ')');
    lemma_no_bare(second, '(', ')');
    lemma_no_bare(second, ':', '{');
    assert(second[0] == '-');
    assert("AND"@[0] == 'A' && "OR"@[0] == 'O' && "NOT"@[0] == 'N');
    reveal_with_fuel(has_operator, 3);
    assert(!has_operator(all, 2));
    reveal_with_fuel(terms_apart, 3);
    assert(is_exclusion(all, 1));
    assert(!is_exclusion(all, 0));
    assert(terms_apart(all, false, 2) =~= seq![wanted]);
    assert(terms_apart(all, true, 2) =~= seq![second]);
    reveal_with_fuel(exclusions, 2);
    let gone = seq![second];
    assert(gone[0].skip(1) =~= unwanted);
    assert(exclusions(gone, 1) =~= " NOT "@ + unwanted);
    assert(text::joined(seq![wanted], " "@) =~= wanted);
    assert(fts5_of(query) =~= seq!['('] + wanted + seq![')', ' ', 'N', 'O', 'T', ' '] + unwanted);
}

/// A term without quotation marks ends at the first white space.
proof fn lemma_word_end(s: Seq<char>, n: int)
    requires
        0 <= n <= s.len(),
        n < s.len() ==> text::is_white(s[n]),
        forall|i: int| 0 <= i < n ==> !text::is_white(#[trigger] s[i]) && s[i] != '"',
    ensures
        term_end(s, false) == n,
    decreases n,
{
    if n > 0 {
        assert(!text::is_white(s[0]) && s[0] != '"');
        let rest = s.skip(1);
        assert forall|i: int| 0 <= i < n - 1 implies !text::is_white(#[trigger] rest[i]) && rest[i]
            != '"' by {
            assert(rest[i] == s[i + 1]);
        }
        lemma_word_end(rest, n - 1);
    }
}

/// A text without quotation marks that lacks two characters does not hold them bare.
proof fn lemma_no_bare(s: Seq<char>, a: char, b: char)
    requires
        forall|i: int| 0 <= i < s.len() ==> #[trigger] s[i] != a && s[i] != b && s[i] != '"',
    ensures
        !holds_bare(s, a, b, false),
    decreases s.len(),
{
    if s.len() > 0 {
        assert(s[0] != a && s[0] != b && s[0] != '"');
        let rest = s.skip(1);
        assert forall|i: int| 0 <= i < rest.len() implies #[trigger] rest[i] != a && rest[i] != b
            && rest[i] != '"' by {
            assert(rest[i] == s[i + 1]);
        }
        lemma_no_bare(rest, a, b);
    }
}

/// Whether a text is a quoted phrase.
pub open spec fn is_phrase(s: Seq<char>) -> bool {
    &&& s.len() >= 2
    &&& s[0] == '"'
    &&& s[s.len() - 1] == '"'
    &&& forall|i: int| 1 <= i < s.len() - 1 ==> #[trigger] s[i] != '"'
}

/// Whether a text is a word or a quoted phrase to be excluded: it has a minus sign before
/// it.
pub open spec fn is_unwanted(s: Seq<char>) -> bool {
    &&& s.len() > 1
    &&& s[0] == '-'
    &&& is_query_word(s.skip(1)) || is_phrase(s.skip(1))
}

/// Whether a text is a word or a quoted phrase to be found.
pub open spec fn is_wanted(s: Seq<char>) -> bool {
    (is_query_word(s) && s[0] != '-') || is_phrase(s)
}

/// Parts of a query with a minus sign before them, or those without.
pub open spec fn has_minus(excluding: bool) -> spec_fn(Seq<char>) -> bool {
    |s: Seq<char>| (s.len() > 0 && s[0] == '-') == excluding
}

/// The texts without their first characters.
pub open spec fn without_signs(parts: Seq<Seq<char>>) -> Seq<Seq<char>> {
    Seq::new(parts.len(), |i: int| parts[i].skip(1))
}

proof fn lemma_quoted_run(s: Seq<char>, tail: Seq<char>, a: char, b: char)
    requires
        forall|i: int| 0 <= i < s.len() ==> #[trigger] s[i] != '"',
    ensures
        term_end(s + tail, true) == s.len() + term_end(tail, true),
        holds_bare(s + tail, a, b, true) == holds_bare(tail, a, b, true),
    decreases s.len(),
{
    if s.len() > 0 {
        let rest = s.skip(1);
        assert((s + tail).skip(1) =~= rest + tail);
        assert((s + tail)[0] == s[0] && s[0] != '"');
        assert forall|i: int| 0 <= i < rest.len() implies #[trigger] rest[i] != '"' by {
            assert(rest[i] == s[i + 1]);
        }
        lemma_quoted_run(rest, tail, a, b);
    } else {
        assert(s + tail =~= tail);
    }
}

proof fn lemma_bare_run(s: Seq<char>, tail: Seq<char>)
    requires
        forall|i: int| 0 <= i < s.len() ==> !text::is_white(#[trigger] s[i]) && s[i] != '"',
    ensures
        term_end(s + tail, false) == s.len() + term_end(tail, false),
    decreases s.len(),
{
    if s.len() > 0 {
        let rest = s.skip(1);
        assert((s + tail).skip(1) =~= rest + tail);
        assert((s + tail)[0] == s[0] && !text::is_white(s[0]) && s[0] != '"');
        assert forall|i: int| 0 <= i < rest.len() implies !text::is_white(#[trigger] rest[i])
            && rest[i] != '"' by {
            assert(rest[i] == s[i + 1]);
        }
        lemma_bare_run(rest, tail);
    } else {
        assert(s + tail =~= tail);
    }
}

proof fn lemma_phrase_run(s: Seq<char>, tail: Seq<char>, a: char, b: char)
    requires
        is_phrase(s),
        a != '"',
        b != '"',
    ensures
        term_end(s + tail, false) == s.len() + term_end(tail, false),
        !holds_bare(s, a, b, false),
{
    let n = s.len() as int;
    let inner = s.subrange(1, n - 1);
    let last = seq!['"'];
    assert forall|i: int| 0 <= i < inner.len() implies #[trigger] inner[i] != '"' by {
        assert(inner[i] == s[i + 1]);
    }
    assert((s + tail).skip(1) =~= inner + (last + tail));
    assert(s.skip(1) =~= inner + last);
    assert(!text::is_white('"'));
    lemma_quoted_run(inner, last + tail, a, b);
    lemma_quoted_run(inner, last, a, b);
    assert((last + tail).skip(1) =~= tail);
    assert((last + tail)[0] == '"');
    assert((s + tail)[0] == '"');
    assert(term_end(last + tail, true) == 1 + term_end(tail, false));
    reveal_with_fuel(holds_bare, 2);
    assert(last.skip(1) =~= Seq::empty());
    assert(!holds_bare(last, a, b, true));
}

/// A part of a query is one of its terms, and no operator.
proof fn lemma_part(s: Seq<char>, tail: Seq<char>)
    requires
        is_wanted(s) || is_unwanted(s),
    ensures
        s.len() > 0,
        !text::is_white(s[0]),
        s[0] != ':',
        term_end(s + tail, false) == s.len() + term_end(tail, false),
        !is_operator(s),
        !holds_bare(s, ':', '{', false),
{
    reveal_strlit("AND");
    reveal_strlit("OR");
    reveal_strlit("NOT");
    assert("AND"@[0] == 'A' && "OR"@[0] == 'O' && "NOT"@[0] == 'N');
    assert(!text::is_white('"') && !text::is_white('-'));
    if is_phrase(s) {
        lemma_phrase_run(s, tail, '(', ')');
        lemma_phrase_run(s, tail, ':', '{');
    } else if is_wanted(s) {
        assert(!text::is_white(s[0]));
        lemma_bare_run(s, tail);
        lemma_no_bare(s, '(', ')');
        lemma_no_bare(s, ':', '{');
    } else {
        let rest = s.skip(1);
        assert((s + tail).skip(1) =~= rest + tail);
        assert((s + tail)[0] == '-');
        if is_phrase(rest) {
            lemma_phrase_run(rest, tail, '(', ')');
            lemma_phrase_run(rest, tail, ':', '{');
        } else {
            assert forall|i: int| 0 <= i < s.len() implies !text::is_white(#[trigger] s[i])
                && s[i] != '"' && s[i] != '(' && s[i] != ')' && s[i] != ':' && s[i] != '{' by {
                if i > 0 {
                    assert(rest[i - 1] == s[i]);
                }
            }
            lemma_bare_run(s, tail);
            lemma_no_bare(s, '(', ')');
            lemma_no_bare(s, ':', '{');
        }
    }
}

proof fn lemma_terms_of_parts(parts: Seq<Seq<char>>)
    requires
        parts.len() > 0,
        forall|i: int|
            0 <= i < parts.len() ==> is_wanted(#[trigger] parts[i]) || is_unwanted(parts[i]),
    ensures
        terms_of(text::joined(parts, seq![' '])) == parts,
    decreases parts.len(),
{
    let query = text::joined(parts, seq![' ']);
    let first = parts[0];
    assert(is_wanted(first) || is_unwanted(first));
    let n = first.len() as int;
    if parts.len() == 1 {
        lemma_part(first, Seq::empty());
        assert(first + Seq::<char>::empty() =~= first);
        assert(query == first);
        assert(first.take(n) =~= first);
        assert(first.skip(n) =~= Seq::empty());
        assert(terms_of(Seq::<char>::empty()) =~= Seq::empty());
        assert(terms_of(query) =~= parts);
    } else {
        let rest = parts.skip(1);
        let tail = seq![' '] + text::joined(rest, seq![' ']);
        assert forall|i: int| 0 <= i < rest.len() implies is_wanted(#[trigger] rest[i])
            || is_unwanted(rest[i]) by {
            assert(rest[i] == parts[i + 1]);
        }
        lemma_terms_of_parts(rest);
        assert(parts =~= seq![first] + rest);
        text::joining_is_piecewise(seq![first], rest, seq![' ']);
        assert(text::joined(seq![first], seq![' ']) == first);
        assert(query =~= first + tail);
        lemma_part(first, tail);
        assert(text::is_white(tail[0]));
        assert(query[0] == first[0]);
        assert(query.take(n) =~= first);
        assert(query.skip(n) =~= tail);
        assert(tail.skip(1) =~= text::joined(rest, seq![' ']));
        assert(terms_of(tail) == rest);
        assert(terms_of(query) =~= parts);
    }
}

proof fn lemma_parts_apart(parts: Seq<Seq<char>>, excluding: bool, n: int)
    requires
        0 <= n <= parts.len(),
        forall|i: int|
            0 <= i < parts.len() ==> is_wanted(#[trigger] parts[i]) || is_unwanted(parts[i]),
    ensures
        terms_apart(parts, excluding, n) == parts.take(n).filter(has_minus(excluding)),
        !has_operator(parts, n),
    decreases n,
{
    let p = has_minus(excluding);
    if n == 0 {
        assert(parts.take(0) =~= Seq::empty());
        table::lemma_filter_none(parts.take(0), p);
        assert(terms_apart(parts, excluding, 0) =~= Seq::empty());
    } else {
        lemma_parts_apart(parts, excluding, n - 1);
        let last = parts[n - 1];
        assert(is_wanted(last) || is_unwanted(last));
        lemma_part(last, Seq::empty());
        if n < parts.len() {
            assert(is_wanted(parts[n]) || is_unwanted(parts[n]));
            lemma_part(parts[n], Seq::empty());
        }
        assert(is_exclusion(parts, n - 1) == (last[0] == '-'));
        assert(parts.take(n) =~= parts.take(n - 1).push(last));
        table::lemma_filter_push(parts.take(n - 1), last, p);
    }
}

proof fn lemma_exclusions(gone: Seq<Seq<char>>, n: int)
    requires
        0 < n <= gone.len(),
    ensures
        exclusions(gone, n) == " NOT "@ + text::joined(without_signs(gone.take(n)), " NOT "@),
    decreases n,
{
    let all = without_signs(gone.take(n));
    if n == 1 {
        reveal_with_fuel(exclusions, 2);
        assert(text::joined(all, " NOT "@) == gone[0].skip(1));
        assert(exclusions(gone, 1) =~= " NOT "@ + gone[0].skip(1));
    } else {
        lemma_exclusions(gone, n - 1);
        assert(all.drop_last() =~= without_signs(gone.take(n - 1)));
        assert(all.last() == gone[n - 1].skip(1));
        assert(exclusions(gone, n) =~= " NOT "@ + text::joined(all, " NOT "@));
    }
}

/// In a query of words and quoted phrases, those with a minus sign are excluded, every
/// one of them, from what all the others ask for; where all or none have one, the query
/// is handed on as it is.
pub proof fn queries_exclude_what_has_a_minus_sign(parts: Seq<Seq<char>>)
    requires
        parts.len() > 0,
        forall|i: int|
            0 <= i < parts.len() ==> is_wanted(#[trigger] parts[i]) || is_unwanted(parts[i]),
    ensures
        ({
            let query = text::joined(parts, seq![' ']);
            let kept = parts.filter(has_minus(false));
            let gone = parts.filter(has_minus(true));
            fts5_of(query) == if kept.len() == 0 || gone.len() == 0 {
                query
            } else {
                "("@ + text::joined(kept, " "@) + ") NOT "@ + text::joined(
                    without_signs(gone),
                    " NOT "@,
                )
            }
        }),
{
    reveal_strlit(")");
    reveal_strlit(" NOT ");
    reveal_strlit(") NOT ");
    let n = parts.len() as int;
    let gone = parts.filter(has_minus(true));
    lemma_terms_of_parts(parts);
    lemma_parts_apart(parts, false, n);
    lemma_parts_apart(parts, true, n);
    assert(parts.take(n) =~= parts);
    if gone.len() > 0 {
        lemma_exclusions(gone, gone.len() as int);
        assert(gone.take(gone.len() as int) =~= gone);
        assert(") NOT "@ =~= ")"@ + " NOT "@);
        let query = text::joined(parts, seq![' ']);
        let kept = parts.filter(has_minus(false));
        if kept.len() > 0 {
            assert(fts5_of(query) =~= "("@ + text::joined(kept, " "@) + ") NOT "@ + text::joined(
                without_signs(gone),
                " NOT "@,
            ));
        }
    }
}

proof fn lemma_operator_found(terms: Seq<Seq<char>>, n: int, i: int)
    requires
        0 <= i < n <= terms.len(),
        is_operator(terms[i]),
    ensures
        has_operator(terms, n),
    decreases n,
{
    if i < n - 1 {
        lemma_operator_found(terms, n - 1, i);
    }
}

/// A query with an operator of the index's own syntax among its terms is handed on as it
/// is.
pub proof fn operators_are_left_alone(query: Seq<char>, i: int)
    requires
        0 <= i < terms_of(query).len(),
        terms_of(query)[i] == "AND"@ || terms_of(query)[i] == "OR"@ || terms_of(query)[i]
            == "NOT"@,
    ensures
        fts5_of(query) == query,
{
    let all = terms_of(query);
    lemma_operator_found(all, all.len() as int, i);
}

} // verus!
