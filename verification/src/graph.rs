//! The knowledge graph of a document: its nodes and edges, and their extraction
//! from WikiLinks, hashtags and repeated capitalised phrases.

use vstd::prelude::*;

use crate::chunk;
use crate::document;
use crate::places;
use crate::table;
use crate::text;

verus! {

// ---------------------------------------------------------------------------
// Nodes and edges
// ---------------------------------------------------------------------------

/// What a node of the graph stands for.
#[derive(Debug, Clone, Copy, PartialEq, Eq, Structural)]
pub enum NodeKind {
    Document,
    WikiLink,
    Tag,
    /// Multi-word capitalised phrase appearing at least twice in a document.
    Concept,
}

/// The stored name of a node kind.
pub open spec fn kind_name(kind: NodeKind) -> Seq<char> {
    match kind {
        NodeKind::Document => "document"@,
        NodeKind::WikiLink => "wikilink"@,
        NodeKind::Tag => "tag"@,
        NodeKind::Concept => "concept"@,
    }
}

/// The node kind with the given name; any other name is a WikiLink.
pub open spec fn kind_named(s: Seq<char>) -> NodeKind {
    if s == "document"@ {
        NodeKind::Document
    } else if s == "tag"@ {
        NodeKind::Tag
    } else if s == "concept"@ {
        NodeKind::Concept
    } else {
        NodeKind::WikiLink
    }
}

impl NodeKind {
    /// The stored name of the kind.
    pub fn as_str(&self) -> (r: &'static str)
        ensures
            r@ == kind_name(*self),
    {
        match self {
            NodeKind::Document => "document",
            NodeKind::WikiLink => "wikilink",
            NodeKind::Tag => "tag",
            NodeKind::Concept => "concept",
        }
    }

    /// The kind with the given name; any other name is a WikiLink.
    pub fn from_str(s: &str) -> (r: Self)
        ensures
            r == kind_named(s@),
    {
        if text::same(s, "document") {
            NodeKind::Document
        } else if text::same(s, "tag") {
            NodeKind::Tag
        } else if text::same(s, "concept") {
            NodeKind::Concept
        } else {
            NodeKind::WikiLink
        }
    }
}

/// Reading back the stored name of a kind gives the kind.
pub proof fn kind_names_round_trip(kind: NodeKind)
    ensures
        kind_named(kind_name(kind)) == kind,
{
    reveal_strlit("document");
    reveal_strlit("wikilink");
    reveal_strlit("tag");
    reveal_strlit("concept");
    assert("document"@.len() == 8 && "wikilink"@.len() == 8 && "tag"@.len() == 3
        && "concept"@.len() == 7);
    assert("document"@[0] != "wikilink"@[0]);
}

/// How a relationship was established.
#[derive(Debug, Clone, Copy, PartialEq, Eq, Structural)]
pub enum Confidence {
    /// Directly observed (WikiLink, tag, heading reference)
    Extracted,
    /// Derived from co-occurrence or structural analysis
    Inferred,
    /// Uncertain; flagged for human review
    Ambiguous,
}

/// The stored name of a confidence.
pub open spec fn confidence_name(c: Confidence) -> Seq<char> {
    match c {
        Confidence::Extracted => "EXTRACTED"@,
        Confidence::Inferred => "INFERRED"@,
        Confidence::Ambiguous => "AMBIGUOUS"@,
    }
}

/// The confidence with the given name; any other name counts as extracted.
pub open spec fn confidence_named(s: Seq<char>) -> Confidence {
    if s == "INFERRED"@ {
        Confidence::Inferred
    } else if s == "AMBIGUOUS"@ {
        Confidence::Ambiguous
    } else {
        Confidence::Extracted
    }
}

impl Confidence {
    /// The stored name of the confidence.
    pub fn as_str(&self) -> (r: &'static str)
        ensures
            r@ == confidence_name(*self),
    {
        match self {
            Confidence::Extracted => "EXTRACTED",
            Confidence::Inferred => "INFERRED",
            Confidence::Ambiguous => "AMBIGUOUS",
        }
    }

    /// The confidence with the given name; any other name counts as extracted.
    pub fn from_str(s: &str) -> (r: Self)
        ensures
            r == confidence_named(s@),
    {
        if text::same(s, "INFERRED") {
            Confidence::Inferred
        } else if text::same(s, "AMBIGUOUS") {
            Confidence::Ambiguous
        } else {
            Confidence::Extracted
        }
    }
}

/// Reading back the stored name of a confidence gives the confidence.
pub proof fn confidence_names_round_trip(c: Confidence)
    ensures
        confidence_named(confidence_name(c)) == c,
{
    reveal_strlit("EXTRACTED");
    reveal_strlit("INFERRED");
    reveal_strlit("AMBIGUOUS");
    assert("EXTRACTED"@.len() == 9 && "INFERRED"@.len() == 8 && "AMBIGUOUS"@.len() == 9);
    assert("EXTRACTED"@[0] != "AMBIGUOUS"@[0]);
}

/// A node of the graph.
#[derive(Debug)]
pub struct Node {
    pub id: String,
    pub label: String,
    pub kind: NodeKind,
    pub doc_id: Option<String>,
    pub frequency: u32,
}

/// What a node holds.
pub struct NodeView {
    pub id: Seq<char>,
    pub label: Seq<char>,
    pub kind: NodeKind,
    pub doc_id: Option<Seq<char>>,
    pub frequency: u32,
}

impl View for Node {
    type V = NodeView;

    open spec fn view(&self) -> NodeView {
        NodeView {
            id: self.id@,
            label: self.label@,
            kind: self.kind,
            doc_id: document::opt_view(self.doc_id),
            frequency: self.frequency,
        }
    }
}

impl Clone for Node {
    fn clone(&self) -> (r: Self)
        ensures
            r == *self,
    {
        Node {
            id: self.id.clone(),
            label: self.label.clone(),
            kind: self.kind,
            doc_id: document::clone_opt(&self.doc_id),
            frequency: self.frequency,
        }
    }
}

/// The contents of a list of nodes.
pub open spec fn node_views(v: Seq<Node>) -> Seq<NodeView> {
    table::rows(v)
}

/// An edge of the graph.
#[derive(Debug)]
pub struct Edge {
    pub source: String,
    pub target: String,
    pub relation: String,
    pub confidence: Confidence,
    /// The weight in thousandths.
    pub weight: u32,
    /// The enclosing paragraph where this link appeared, for hop-level explanations.
    pub context: Option<String>,
    pub doc_id: String,
}

/// What an edge holds.
pub struct EdgeView {
    pub source: Seq<char>,
    pub target: Seq<char>,
    pub relation: Seq<char>,
    pub confidence: Confidence,
    pub weight: u32,
    pub context: Option<Seq<char>>,
    pub doc_id: Seq<char>,
}

impl View for Edge {
    type V = EdgeView;

    open spec fn view(&self) -> EdgeView {
        EdgeView {
            source: self.source@,
            target: self.target@,
            relation: self.relation@,
            confidence: self.confidence,
            weight: self.weight,
            context: document::opt_view(self.context),
            doc_id: self.doc_id@,
        }
    }
}

impl Clone for Edge {
    fn clone(&self) -> (r: Self)
        ensures
            r == *self,
    {
        Edge {
            source: self.source.clone(),
            target: self.target.clone(),
            relation: self.relation.clone(),
            confidence: self.confidence,
            weight: self.weight,
            context: document::clone_opt(&self.context),
            doc_id: self.doc_id.clone(),
        }
    }
}

/// The contents of a list of edges.
pub open spec fn edge_views(v: Seq<Edge>) -> Seq<EdgeView> {
    table::rows(v)
}

/// A node with its total degree, as returned by `god_nodes`.
#[derive(Debug)]
pub struct GodNode {
    pub node: Node,
    pub degree: usize,
}

/// One hop in a shortest-path result.
#[derive(Debug)]
pub struct PathHop {
    pub node: Node,
    /// Relation that led to this node (empty for the start node).
    pub relation: String,
}

/// Graph statistics.
#[derive(Debug, Clone, Copy, PartialEq, Eq, Structural)]
pub struct GraphStats {
    pub total_nodes: usize,
    pub doc_nodes: usize,
    pub wikilink_nodes: usize,
    pub tag_nodes: usize,
    pub total_edges: usize,
    pub extracted_edges: usize,
    pub inferred_edges: usize,
    pub ambiguous_edges: usize,
    pub isolated_docs: usize,
}

/// The weight of a WikiLink edge, in thousandths.
pub const LINK_WEIGHT: u32 = 1000;

/// The weight of a hashtag edge, in thousandths.
pub const TAG_WEIGHT: u32 = 800;

/// The weight of a concept edge, in thousandths.
pub const CONCEPT_WEIGHT: u32 = 600;

/// The most characters of a paragraph that are kept as context.
pub const CONTEXT_LEN: usize = 300;

// ---------------------------------------------------------------------------
// Slugs
// ---------------------------------------------------------------------------

/// Whether `c` is a lower-case ASCII letter or a digit.
pub open spec fn is_plain(c: char) -> bool {
    let u = c as u32;
    48 <= u <= 57 || 97 <= u <= 122
}

/// Whether `c` is a lower-case ASCII letter or a digit.
fn plain(c: char) -> (r: bool)
    ensures
        r == is_plain(c),
{
    let u: u32 = c as u32;
    (48 <= u && u <= 57) || (97 <= u && u <= 122)
}

/// The index of the first character of `s` that is no lower-case ASCII letter and
/// no digit, or its length if there is none.
pub open spec fn run_end(s: Seq<char>) -> nat
    decreases s.len(),
{
    if s.len() == 0 || !is_plain(s[0]) {
        0
    } else {
        1 + run_end(s.skip(1))
    }
}

/// A run ends within the text.
pub proof fn lemma_run_end_bound(s: Seq<char>)
    ensures
        run_end(s) <= s.len(),
        forall|i: int| 0 <= i < run_end(s) ==> is_plain(#[trigger] s[i]),
    decreases s.len(),
{
    if s.len() > 0 && is_plain(s[0]) {
        lemma_run_end_bound(s.skip(1));
        assert forall|i: int| 0 <= i < run_end(s) implies is_plain(#[trigger] s[i]) by {
            if i > 0 {
                assert(s.skip(1)[i - 1] == s[i]);
            }
        }
    }
}

/// The maximal runs of lower-case ASCII letters and digits of `s`, in order.
pub open spec fn runs_of(s: Seq<char>) -> Seq<Seq<char>>
    decreases s.len(),
{
    if s.len() == 0 {
        Seq::empty()
    } else if !is_plain(s[0]) {
        runs_of(s.skip(1))
    } else {
        proof {
            lemma_run_end_bound(s);
        }
        seq![s.take(run_end(s) as int)] + runs_of(s.skip(run_end(s) as int))
    }
}

/// Whether a slug tells of the character: of the ASCII characters the letters and
/// digits, of the others those that are alphabetic or numeric by Unicode.
pub open spec fn is_slug_char(c: char) -> bool {
    if c as u32 <= 127 {
        text::ascii_alphanumeric(c)
    } else {
        text::alphanumeric(c)
    }
}

/// The code point of a character, as `u` and six hexadecimal digits.
pub open spec fn code_of(c: char) -> Seq<char> {
    let u = c as u32;
    seq![
        'u',
        document::hex_digit((u / 0x100000 % 16) as int),
        document::hex_digit((u / 0x10000 % 16) as int),
        document::hex_digit((u / 0x1000 % 16) as int),
        document::hex_digit((u / 0x100 % 16) as int),
        document::hex_digit((u / 0x10 % 16) as int),
        document::hex_digit((u % 16) as int),
    ]
}

/// How a slug spells a character: an ASCII letter in lower case, a digit as it is,
/// any other letter or digit by its code point, and the rest as an underscore.
pub open spec fn spelled(c: char) -> Seq<char> {
    if !is_slug_char(c) {
        seq!['_']
    } else if c as u32 <= 127 {
        seq![text::ascii_lower(c)]
    } else {
        code_of(c)
    }
}

/// How a slug spells the characters of a text.
pub open spec fn spelled_out(s: Seq<char>) -> Seq<char>
    decreases s.len(),
{
    if s.len() == 0 {
        Seq::empty()
    } else {
        spelled_out(s.drop_last()) + spelled(s.last())
    }
}

/// A text made safe for addresses: the runs of letters and digits that spell it,
/// joined by underscores.
pub open spec fn slug_text(s: Seq<char>) -> Seq<char> {
    text::joined(runs_of(spelled_out(s)), "_"@)
}

/// The slug of a label: its lower-case form, made safe for addresses.
pub open spec fn slug_of(label: Seq<char>) -> Seq<char> {
    slug_text(text::lowercase_of(label))
}

/// Whether `s` is a slug: lower-case ASCII letters and digits, with single
/// underscores between them.
pub open spec fn is_slug(s: Seq<char>) -> bool {
    &&& forall|i: int| 0 <= i < s.len() ==> is_plain(#[trigger] s[i]) || s[i] == '_'
    &&& s.len() > 0 ==> s[0] != '_' && s.last() != '_'
    &&& forall|i: int| 0 < i < s.len() && #[trigger] s[i] == '_' ==> s[i - 1] != '_'
}

/// The maximal runs of lower-case ASCII letters and digits of `s`, in order.
fn runs(s: &[char]) -> (r: Vec<Vec<char>>)
    ensures
        text::views(r@) == runs_of(s@),
{
    let mut out: Vec<Vec<char>> = Vec::new();
    let n: usize = s.len();
    let mut start: usize = 0;
    assert(s@.skip(0) =~= s@);
    assert(text::views(out@) + runs_of(s@) =~= runs_of(s@));
    while start < n
        invariant
            start <= n == s@.len(),
            text::views(out@) + runs_of(s@.skip(start as int)) == runs_of(s@),
        decreases n - start,
    {
        let ghost rest = s@.skip(start as int);
        if !plain(s[start]) {
            assert(rest.skip(1) =~= s@.skip(start + 1));
            start += 1;
            continue;
        }
        let mut end: usize = start;
        assert(rest.skip(0) =~= rest);
        while end < n && plain(s[end])
            invariant
                start <= end <= n == s@.len(),
                rest == s@.skip(start as int),
                run_end(rest) == (end - start) + run_end(rest.skip(end - start)),
            decreases n - end,
        {
            assert(rest.skip(end - start).skip(1) =~= rest.skip(end - start + 1));
            end += 1;
        }
        assert(run_end(rest) == end - start);
        let ghost before = out@;
        let word = vstd::slice::slice_to_vec(vstd::slice::slice_subrange(s, start, end));
        assert(word@ =~= rest.take(end - start));
        out.push(word);
        assert(rest.skip(end - start) =~= s@.skip(end as int));
        assert(text::views(out@) =~= text::views(before).push(word@));
        assert(text::views(before) + runs_of(rest) =~= text::views(out@) + runs_of(
            s@.skip(end as int),
        ));
        assert(end > start) by {
            assert(is_plain(rest[0]));
        }
        start = end;
    }
    assert(text::views(out@) + runs_of(s@.skip(start as int)) =~= text::views(out@));
    out
}

/// The lower-case hexadecimal digit of `d`.
fn hex_char(d: u32) -> (r: char)
    requires
        d < 16,
    ensures
        r == document::hex_digit(d as int),
{
    let b: u8 = if d < 10 {
        (48 + d) as u8
    } else {
        (87 + d) as u8
    };
    b as char
}

/// Adds the code point of a character to a text.
fn push_code(out: &mut Vec<char>, c: char)
    ensures
        final(out)@ == old(out)@ + code_of(c),
{
    let ghost before = out@;
    let u: u32 = c as u32;
    out.push('u');
    out.push(hex_char(u / 0x100000 % 16));
    out.push(hex_char(u / 0x10000 % 16));
    out.push(hex_char(u / 0x1000 % 16));
    out.push(hex_char(u / 0x100 % 16));
    out.push(hex_char(u / 0x10 % 16));
    out.push(hex_char(u % 16));
    assert(out@ =~= before + code_of(c));
}

/// How a slug spells the characters of a text.
fn spell_out(s: &[char]) -> (r: Vec<char>)
    ensures
        r@ == spelled_out(s@),
        forall|i: int|
            0 <= i < s@.len() ==> is_slug_char(#[trigger] s@[i]) == text::alphanumeric(s@[i]),
{
    let mut out: Vec<char> = Vec::new();
    let n: usize = s.len();
    let mut i: usize = 0;
    assert(s@.take(0) =~= Seq::empty());
    while i < n
        invariant
            i <= n == s@.len(),
            out@ == spelled_out(s@.take(i as int)),
            forall|k: int|
                0 <= k < i ==> is_slug_char(#[trigger] s@[k]) == text::alphanumeric(s@[k]),
        decreases n - i,
    {
        let ghost before = out@;
        let ghost longer = s@.take(i + 1);
        assert(longer.drop_last() =~= s@.take(i as int));
        let c = s[i];
        let u: u32 = c as u32;
        if !text::is_alphanumeric(c) {
            out.push('_');
        } else if 65 <= u && u <= 90 {
            let b: u8 = (u + 32) as u8;
            out.push(b as char);
        } else if u <= 127 {
            out.push(c);
        } else {
            push_code(&mut out, c);
        }
        assert(out@ =~= before + spelled(c));
        i += 1;
    }
    assert(s@.take(n as int) =~= s@);
    out
}

/// URL-safe slug derived from a label string. It is empty exactly where the
/// lower-case label holds no letter and no digit. A slug is its own slug.
pub fn slug(label: &str) -> (r: String)
    ensures
        r@ == slug_of(label@),
        is_slug(r@),
        is_slug(label@) ==> r@ == label@,
        r@.len() == 0 <==> forall|i: int|
            0 <= i < text::lowercase_of(label@).len() ==> !text::alphanumeric(
                #[trigger] text::lowercase_of(label@)[i],
            ),
{
    let lower = text::lowercase(label);
    proof {
        if is_slug(label@) {
            assert forall|i: int| 0 <= i < label@.len() implies (#[trigger] label@[i]) as u32
                <= 127 by {
                assert(is_plain(label@[i]) || label@[i] == '_');
            }
            lemma_slug_is_lower(label@);
            a_slug_is_its_own_slug(label@);
        }
    }
    slug_from(lower.as_str())
}

/// An already lower-cased label, made safe for addresses.
pub fn slug_from(lower: &str) -> (r: String)
    ensures
        r@ == slug_text(lower@),
        is_slug(r@),
        r@.len() == 0 <==> forall|i: int|
            0 <= i < lower@.len() ==> !text::alphanumeric(#[trigger] lower@[i]),
{
    let chars = text::chars_of(lower);
    let spelling = spell_out(chars.as_slice());
    let parts = runs(spelling.as_slice());
    let n: usize = parts.len();
    let joined = text::join(&parts, 0, n, "_");
    assert(text::views(parts@).subrange(0, n as int) =~= text::views(parts@));
    proof {
        safe_texts_are_slugs(lower@);
        assert forall|i: int| 0 <= i < lower@.len() implies is_slug_char(#[trigger] lower@[i])
            == text::alphanumeric(lower@[i]) by {
            assert(chars@[i] == lower@[i]);
        }
    }
    text::string_of(joined.as_slice())
}

// ---------------------------------------------------------------------------
// Context
// ---------------------------------------------------------------------------

/// The paragraph that encloses index `pos`, trimmed and cut to the context
/// length, or `None` where it is blank. Paragraphs are divided by two line
/// feeds in a row.
pub open spec fn paragraph_at(content: Seq<char>, pos: int) -> Option<Seq<char>> {
    let start = match text::rfind_in(content.take(pos), "\n\n"@) {
        Some(i) => i + "\n\n"@.len(),
        None => 0,
    };
    let end = match text::find_from(content, "\n\n"@, pos) {
        Some(i) => i,
        None => content.len() as int,
    };
    let para = text::trimmed(content.subrange(start, end));
    if para.len() == 0 {
        None
    } else if para.len() > CONTEXT_LEN {
        Some(para.take(CONTEXT_LEN as int))
    } else {
        Some(para)
    }
}

/// Returns the paragraph (blank-line delimited block) enclosing the character
/// at `pos` in `content`, truncated to 300 chars.
pub fn enclosing_paragraph(content: &[char], pos: usize) -> (r: Option<String>)
    requires
        pos <= content@.len(),
    ensures
        document::opt_view(r) == paragraph_at(content@, pos as int),
{
    let gap = text::chars_of("\n\n");
    let start: usize = match text::rfind(text::take(content, pos), gap.as_slice()) {
        Some(i) => i + gap.len(),
        None => 0,
    };
    let end: usize = match text::find_after(content, gap.as_slice(), pos) {
        Some(i) => i,
        None => content.len(),
    };
    let para = text::trim(vstd::slice::slice_subrange(content, start, end));
    if para.len() == 0 {
        None
    } else if para.len() > CONTEXT_LEN {
        Some(text::string_of(text::take(para, CONTEXT_LEN)))
    } else {
        Some(text::string_of(para))
    }
}

// ---------------------------------------------------------------------------
// Pattern matches
// ---------------------------------------------------------------------------

/// A WikiLink: `[[Target]]` or `[[Target|Display]]`; the target is captured.
pub const WIKILINK_PATTERN: &'static str = r"\[\[([^\]|]+)(?:\|[^\]]+)?\]\]";

/// A hashtag at the start of the text or after white space; its label is captured.
pub const HASHTAG_PATTERN: &'static str = r"(?:^|\s)#([a-zA-Z][a-zA-Z0-9_-]*)";

/// A phrase of two or three capitalised words; the phrase is captured.
pub const CONCEPT_PATTERN: &'static str =
    r"\b([A-Z][a-z]{2,}(?:\s+[A-Z][a-z]{2,}){1,2})\b";

/// The contents of a list of pairs of a text and an optional text.
pub open spec fn pair_views(v: Seq<(String, Option<String>)>) -> Seq<
    (Seq<char>, Option<Seq<char>>),
> {
    Seq::new(v.len(), |i: int| (v[i].0@, document::opt_view(v[i].1)))
}

/// The contents of a list of strings.
pub open spec fn string_views(v: Seq<String>) -> Seq<Seq<char>> {
    table::rows(v)
}

/// Whether `c` is an ASCII letter.
pub open spec fn is_letter(c: char) -> bool {
    let u = c as u32;
    65 <= u <= 90 || 97 <= u <= 122
}

/// Whether `s` can be a hashtag's label: an ASCII letter, then ASCII letters,
/// digits, underscores and hyphens.
pub open spec fn is_tag_label(s: Seq<char>) -> bool {
    &&& s.len() > 0
    &&& is_letter(s[0])
    &&& forall|i: int|
        0 <= i < s.len() ==> text::ascii_alphanumeric(#[trigger] s[i]) || s[i] == '_' || s[i] == '-'
}

/// Whether `s` is a capitalised ASCII word of at least three letters.
pub open spec fn is_capitalised(s: Seq<char>) -> bool {
    &&& s.len() >= 3
    &&& 65 <= s[0] as u32 <= 90
    &&& forall|i: int| 1 <= i < s.len() ==> 97 <= (#[trigger] s[i]) as u32 <= 122
}

/// Whether `s` is a phrase of two or three capitalised words.
pub open spec fn is_phrase(s: Seq<char>) -> bool {
    let words = text::words_of(s);
    &&& 2 <= words.len() <= 3
    &&& forall|i: int| 0 <= i < words.len() ==> is_capitalised(#[trigger] words[i])
}

/// Whether a match of the WikiLink pattern captures `target`: what stands
/// between the opening brackets and the next bar or closing bracket.
pub open spec fn is_link_match(whole: Seq<char>, target: Seq<char>) -> bool {
    &&& target.len() > 0
    &&& !target.contains(']')
    &&& !target.contains('|')
    &&& text::begins_with(whole, seq!['[', '['] + target)
}

/// What each match of the patterns above looks like: its capture is of the
/// pattern's form.
pub open spec fn is_match(
    pattern: Seq<char>,
    found: (Seq<char>, Option<Seq<char>>),
) -> bool {
    &&& pattern == WIKILINK_PATTERN@ ==> (found.1 matches Some(target) && is_link_match(
        found.0,
        target,
    ))
    &&& pattern == HASHTAG_PATTERN@ ==> (found.1 matches Some(label) && is_tag_label(label))
    &&& pattern == CONCEPT_PATTERN@ ==> (found.1 matches Some(phrase) && is_phrase(phrase))
}

/// The index behind the first `n` matches in a text, each of them looked for
/// behind the one before it.
pub open spec fn behind(
    hay: Seq<char>,
    found: Seq<(Seq<char>, Option<Seq<char>>)>,
    n: int,
) -> int
    decreases n,
{
    if n <= 0 {
        0
    } else {
        let from = behind(hay, found, n - 1);
        match text::find_from(hay, found[n - 1].0, from) {
            Some(at) => at + found[n - 1].0.len(),
            None => from,
        }
    }
}

/// Where match `k` stands in a text: at the first place of its text behind the
/// match before it.
pub open spec fn place_of(
    hay: Seq<char>,
    found: Seq<(Seq<char>, Option<Seq<char>>)>,
    k: int,
) -> Option<int> {
    text::find_from(hay, found[k].0, behind(hay, found, k))
}

/// The index behind some matches lies within the text.
pub proof fn lemma_behind(hay: Seq<char>, found: Seq<(Seq<char>, Option<Seq<char>>)>, n: int)
    ensures
        0 <= behind(hay, found, n) <= hay.len(),
    decreases n,
{
    if n > 0 {
        lemma_behind(hay, found, n - 1);
        text::lemma_find_from(hay, found[n - 1].0, behind(hay, found, n - 1));
    }
}

/// The matches of a regular expression in a text, from left to right, each with
/// what its first group captured; `None` where the expression is not valid.
pub uninterp spec fn regex_captures(pattern: Seq<char>, hay: Seq<char>) -> Option<
    Seq<(Seq<char>, Option<Seq<char>>)>,
>;

/// The contents of an optional list of matches.
pub open spec fn opt_pair_views(v: Option<Vec<(String, Option<String>)>>) -> Option<
    Seq<(Seq<char>, Option<Seq<char>>)>,
> {
    match v {
        Some(pairs) => Some(pair_views(pairs@)),
        None => None,
    }
}

/// `regex::Regex::new` and `Regex::captures_iter`: the non-overlapping matches
/// of `pattern` in `hay`, each as the text of the match and of its first group.
/// Each match stands in `hay` behind the one before it. Of the three patterns above, the first group takes
/// part in every match, and its text is of the form that the pattern spells out.
/// Where in `hay` there is a match is left to the name.
#[verifier::external_body]
fn captures(pattern: &str, hay: &str) -> (r: Option<Vec<(String, Option<String>)>>)
    ensures
        opt_pair_views(r) == regex_captures(pattern@, hay@),
        r matches Some(found) ==> forall|i: int|
            0 <= i < found@.len() ==> is_match(pattern@, #[trigger] pair_views(found@)[i]),
        r matches Some(found) ==> forall|i: int|
            0 <= i < found@.len() ==> #[trigger] place_of(hay@, pair_views(found@), i) is Some,
{
    let re = regex::Regex::new(pattern).ok()?;
    let found = re.captures_iter(hay);
    Some(
        found.map(
            |c| (c[0].to_string(), c.get(1).map(|m| m.as_str().to_string())),
        ).collect(),
    )
}

/// The matches of a pattern in one line, without the carriage returns at its end;
/// none where nothing is left of the line or the pattern is not valid.
pub open spec fn matches_in(pattern: Seq<char>, line: Seq<char>) -> Seq<
    (Seq<char>, Option<Seq<char>>),
> {
    let bare = text::without_crs(line);
    if bare.len() == 0 {
        Seq::empty()
    } else {
        match regex_captures(pattern, bare) {
            Some(found) => found,
            None => Seq::empty(),
        }
    }
}

/// The matches of a pattern in one line, without the carriage returns at its end;
/// none where nothing is left of the line or the pattern is not valid.
fn find_matches(pattern: &str, line: &[char]) -> (r: Vec<(String, Option<String>)>)
    ensures
        pair_views(r@) == matches_in(pattern@, line@),
        forall|i: int|
            0 <= i < r@.len() ==> is_match(pattern@, #[trigger] pair_views(r@)[i]),
        forall|i: int|
            0 <= i < r@.len() ==> #[trigger] place_of(
                text::without_crs(line@),
                pair_views(r@),
                i,
            ) is Some,
{
    let none: Vec<(String, Option<String>)> = Vec::new();
    assert(pair_views(none@) =~= Seq::empty());
    let bare = text::strip_crs(line);
    if bare.len() == 0 {
        return none;
    }
    let hay = text::string_of(bare);
    match captures(pattern, hay.as_str()) {
        Some(found) => found,
        None => none,
    }
}

/// Those of the first `n` lines that stand outside code fences and are no
/// opening fence marker.
pub open spec fn unfenced(lines: Seq<Seq<char>>, n: int) -> Seq<Seq<char>>
    decreases n,
{
    if n <= 0 {
        Seq::empty()
    } else if chunk::in_fence_at(lines, n) {
        unfenced(lines, n - 1)
    } else {
        unfenced(lines, n - 1).push(lines[n - 1])
    }
}

/// The lines of a text that are searched for links, tags and concepts.
pub open spec fn prose_of(content: Seq<char>) -> Seq<Seq<char>> {
    let lines = text::lines_of(content);
    unfenced(lines, lines.len() as int)
}

/// The lines of a text that are searched for links, tags and concepts.
fn prose_lines(content: &[char]) -> (r: Vec<Vec<char>>)
    ensures
        text::views(r@) == prose_of(content@),
{
    let lines = text::lines(content);
    let ghost texts = text::views(lines@);
    let mut out: Vec<Vec<char>> = Vec::new();
    let n: usize = lines.len();
    let mut i: usize = 0;
    let mut in_fence: bool = false;
    assert(text::views(out@) =~= Seq::empty());
    while i < n
        invariant
            i <= n == lines@.len(),
            texts == text::views(lines@),
            text::views(out@) == unfenced(texts, i as int),
            in_fence == chunk::in_fence_at(texts, i as int),
        decreases n - i,
    {
        assert(texts[i as int] == lines@[i as int]@);
        if text::starts_with(lines[i].as_slice(), "```") {
            in_fence = !in_fence;
        }
        if !in_fence {
            let ghost before = out@;
            let line = vstd::slice::slice_to_vec(lines[i].as_slice());
            out.push(line);
            assert(text::views(out@) =~= text::views(before).push(texts[i as int]));
        }
        i += 1;
    }
    out
}

// ---------------------------------------------------------------------------
// WikiLinks
// ---------------------------------------------------------------------------

/// The paragraph in which match `k` of a line stands; the line begins at index
/// `start` of the content.
pub open spec fn context_of(
    content: Seq<char>,
    start: int,
    line: Seq<char>,
    found: Seq<(Seq<char>, Option<Seq<char>>)>,
    k: int,
) -> Option<Seq<char>> {
    match place_of(line, found, k) {
        Some(at) => paragraph_at(content, start + at),
        None => None,
    }
}

/// The links that the first `n` matches of the WikiLink pattern in a line stand
/// for: each target, trimmed, with the paragraph in which it stands; blank
/// targets are left out.
pub open spec fn links_in(
    content: Seq<char>,
    start: int,
    line: Seq<char>,
    found: Seq<(Seq<char>, Option<Seq<char>>)>,
    n: int,
) -> Seq<(Seq<char>, Option<Seq<char>>)>
    decreases n,
{
    if n <= 0 {
        Seq::empty()
    } else {
        let before = links_in(content, start, line, found, n - 1);
        match found[n - 1].1 {
            Some(target) => if text::trimmed(target).len() == 0 {
                before
            } else {
                before.push(
                    (text::trimmed(target), context_of(content, start, line, found, n - 1)),
                )
            },
            None => before,
        }
    }
}

/// The links of a line that begins at index `start` of the content.
pub open spec fn line_links(content: Seq<char>, start: int, line: Seq<char>) -> Seq<
    (Seq<char>, Option<Seq<char>>),
> {
    let found = matches_in(WIKILINK_PATTERN@, line);
    links_in(content, start, text::without_crs(line), found, found.len() as int)
}

/// The links of the first `n` lines, those inside code fences left out.
pub open spec fn links_upto(content: Seq<char>, n: int) -> Seq<(Seq<char>, Option<Seq<char>>)>
    decreases n,
{
    let lines = text::lines_of(content);
    if n <= 0 {
        Seq::empty()
    } else if chunk::in_fence_at(lines, n) {
        links_upto(content, n - 1)
    } else {
        links_upto(content, n - 1) + line_links(
            content,
            text::line_start(content, n - 1),
            lines[n - 1],
        )
    }
}

/// The links of a text.
pub open spec fn links_of(content: Seq<char>) -> Seq<(Seq<char>, Option<Seq<char>>)> {
    links_upto(content, text::lines_of(content).len() as int)
}

/// The links that matches of the WikiLink pattern in a line stand for; the line
/// begins at index `start` of the content.
pub fn links_from(
    content: &[char],
    start: usize,
    line: &[char],
    found: &Vec<(String, Option<String>)>,
) -> (r: Vec<(String, Option<String>)>)
    requires
        start + line@.len() <= content@.len(),
    ensures
        pair_views(r@) == links_in(
            content@,
            start as int,
            line@,
            pair_views(found@),
            found@.len() as int,
        ),
{
    let ghost all = pair_views(found@);
    let mut out: Vec<(String, Option<String>)> = Vec::new();
    let n: usize = found.len();
    let total: usize = content.len();
    let mut from: usize = 0;
    let mut i: usize = 0;
    assert(pair_views(out@) =~= Seq::empty());
    while i < n
        invariant
            i <= n == found@.len(),
            start + line@.len() <= content@.len() == total,
            all == pair_views(found@),
            from == behind(line@, all, i as int),
            pair_views(out@) == links_in(content@, start as int, line@, all, i as int),
        decreases n - i,
    {
        let ghost before = out@;
        let whole = text::chars_of(found[i].0.as_str());
        assert(all[i as int].0 == whole@);
        let place = text::find_after(line, whole.as_slice(), from);
        assert(place matches Some(at) ==> start + at + whole@.len() <= total);
        match &found[i].1 {
            Some(group) => {
                let chars = text::chars_of(group.as_str());
                let target = text::trim(chars.as_slice());
                if target.len() > 0 {
                    let context = match place {
                        Some(at) => enclosing_paragraph(content, start + at),
                        None => None,
                    };
                    out.push((text::string_of(target), context));
                    assert(pair_views(out@) =~= pair_views(before).push(
                        (
                            text::trimmed(chars@),
                            context_of(content@, start as int, line@, all, i as int),
                        ),
                    ));
                }
            },
            None => {},
        }
        if let Some(at) = place {
            from = at + whole.len();
        }
        i += 1;
    }
    out
}

/// Whether a link has a target and the paragraph that it stands in.
pub open spec fn is_placed_link(link: (Seq<char>, Option<Seq<char>>)) -> bool {
    link.0.len() > 0 && link.1 is Some
}

/// A place that holds a bracket has a paragraph.
proof fn lemma_context(content: Seq<char>, pos: int)
    requires
        0 <= pos < content.len(),
        content[pos] == '[',
    ensures
        paragraph_at(content, pos) is Some,
{
    let gap = "\n\n"@;
    reveal_strlit("\n\n");
    text::lemma_rfind_from(content.take(pos), gap, pos - gap.len());
    text::lemma_find_from(content, gap, pos);
    let start = match text::rfind_in(content.take(pos), gap) {
        Some(i) => i + gap.len(),
        None => 0,
    };
    let end = match text::find_from(content, gap, pos) {
        Some(i) => i,
        None => content.len() as int,
    };
    if end == pos {
        assert(content.subrange(pos, pos + gap.len())[0] == gap[0]);
    }
    assert(start <= pos < end);
    let para = content.subrange(start, end);
    assert(para[pos - start] == '[');
    assert(!text::is_white('['));
    text::lemma_trimmed_blank(para);
}

/// Links found in a line of the content have a target and a context.
proof fn lemma_links_are_placed(
    content: Seq<char>,
    start: int,
    line: Seq<char>,
    found: Seq<(Seq<char>, Option<Seq<char>>)>,
    n: int,
)
    requires
        0 <= n <= found.len(),
        text::occurs_at(content, line, start),
        forall|k: int| 0 <= k < found.len() ==> is_match(WIKILINK_PATTERN@, #[trigger] found[k]),
        forall|k: int| 0 <= k < found.len() ==> #[trigger] place_of(line, found, k) is Some,
    ensures
        forall|k: int|
            0 <= k < links_in(content, start, line, found, n).len() ==> is_placed_link(
                #[trigger] links_in(content, start, line, found, n)[k],
            ),
    decreases n,
{
    if n > 0 {
        lemma_links_are_placed(content, start, line, found, n - 1);
        let before = links_in(content, start, line, found, n - 1);
        let now = links_in(content, start, line, found, n);
        let one = found[n - 1];
        assert(is_match(WIKILINK_PATTERN@, one));
        let target = one.1.unwrap();
        assert(one.0.subrange(0, target.len() as int + 2) =~= seq!['[', '['] + target);
        assert(one.0[0] == (seq!['[', '['] + target)[0]);
        assert(place_of(line, found, n - 1) is Some);
        lemma_behind(line, found, n - 1);
        text::lemma_find_from(line, one.0, behind(line, found, n - 1));
        let at = place_of(line, found, n - 1).unwrap();
        assert(line[at] == line.subrange(at, at + one.0.len())[0]);
        assert(content[start + at] == content.subrange(start, start + line.len())[at]);
        lemma_context(content, start + at);
        assert forall|k: int| 0 <= k < now.len() implies is_placed_link(#[trigger] now[k]) by {
            if k < before.len() {
                assert(now[k] == before[k]);
            }
        }
    }
}

/// Extracts WikiLink targets with optional enclosing-paragraph context.
/// Handles `[[Target]]` and `[[Target|Display Text]]`.
/// Lines inside code fences are skipped. No target is empty, and every link has
/// a context, the paragraph in which it stands.
pub fn extract_wikilinks(content: &str) -> (r: Vec<(String, Option<String>)>)
    ensures
        pair_views(r@) == links_of(content@),
        forall|i: int| 0 <= i < r@.len() ==> is_placed_link(#[trigger] pair_views(r@)[i]),
        places::are_links(content@, pair_views(r@)),
{
    proof {
        places::every_match_outside_code_is_a_link(content@);
    }
    let chars = text::chars_of(content);
    let lines = text::lines(chars.as_slice());
    let starts = text::line_starts(chars.as_slice());
    let ghost texts = text::lines_of(content@);
    let mut out: Vec<(String, Option<String>)> = Vec::new();
    let n: usize = lines.len();
    let mut in_fence: bool = false;
    let mut i: usize = 0;
    assert(pair_views(out@) =~= Seq::empty());
    while i < n
        invariant
            i <= n == lines@.len() == starts@.len(),
            chars@ == content@,
            texts == text::lines_of(content@),
            texts == text::views(lines@),
            forall|k: int| 0 <= k < n ==> #[trigger] starts@[k] == text::line_start(content@, k),
            in_fence == chunk::in_fence_at(texts, i as int),
            pair_views(out@) == links_upto(content@, i as int),
            forall|j: int| 0 <= j < out@.len() ==> is_placed_link(#[trigger] pair_views(out@)[j]),
        decreases n - i,
    {
        let ghost line = texts[i as int];
        assert(line == lines@[i as int]@);
        if text::starts_with(lines[i].as_slice(), "```") {
            in_fence = !in_fence;
        }
        if !in_fence {
            proof {
                text::lemma_line_occurs(content@, i as int);
            }
            let start: usize = starts[i];
            let found = find_matches(WIKILINK_PATTERN, lines[i].as_slice());
            let bare = text::strip_crs(lines[i].as_slice());
            assert(content@.subrange(start as int, start + bare@.len()) =~= bare@) by {
                assert(content@.subrange(start as int, start + line.len()) == line);
                assert(bare@ =~= line.take(bare@.len() as int));
            }
            let mut links = links_from(chars.as_slice(), start, bare, &found);
            let ghost before = out@;
            let ghost more = links@;
            proof {
                let all = pair_views(found@);
                assert forall|k: int| 0 <= k < all.len() implies is_match(
                    WIKILINK_PATTERN@,
                    #[trigger] all[k],
                ) by {
                    assert(is_match(WIKILINK_PATTERN@, pair_views(found@)[k]));
                }
                lemma_links_are_placed(content@, start as int, bare@, all, all.len() as int);
            }
            out.append(&mut links);
            assert(pair_views(out@) =~= pair_views(before) + pair_views(more));
        }
        i += 1;
    }
    out
}

// ---------------------------------------------------------------------------
// Tags
// ---------------------------------------------------------------------------

/// What the first groups of the matches captured.
pub open spec fn groups_in(found: Seq<(Seq<char>, Option<Seq<char>>)>) -> Seq<Seq<char>>
    decreases found.len(),
{
    if found.len() == 0 {
        Seq::empty()
    } else {
        let before = groups_in(found.drop_last());
        match found.last().1 {
            Some(group) => before.push(group),
            None => before,
        }
    }
}

/// The tags of the first `n` lines.
pub open spec fn tags_upto(lines: Seq<Seq<char>>, n: int) -> Seq<Seq<char>>
    decreases n,
{
    if n <= 0 {
        Seq::empty()
    } else {
        tags_upto(lines, n - 1) + groups_in(matches_in(HASHTAG_PATTERN@, lines[n - 1]))
    }
}

/// The hashtag labels of a text, in order, with repetitions.
pub open spec fn tags_of(content: Seq<char>) -> Seq<Seq<char>> {
    tags_upto(prose_of(content), prose_of(content).len() as int)
}

/// What the first groups of the matches captured.
pub fn groups_from(found: &Vec<(String, Option<String>)>) -> (r: Vec<String>)
    ensures
        string_views(r@) == groups_in(pair_views(found@)),
{
    let ghost all = pair_views(found@);
    let mut out: Vec<String> = Vec::new();
    let n: usize = found.len();
    let mut i: usize = 0;
    assert(string_views(out@) =~= Seq::empty());
    assert(all.take(0) =~= Seq::empty());
    while i < n
        invariant
            i <= n == found@.len(),
            all == pair_views(found@),
            string_views(out@) == groups_in(all.take(i as int)),
        decreases n - i,
    {
        let ghost before = out@;
        let ghost longer = all.take(i + 1);
        assert(longer.drop_last() =~= all.take(i as int));
        assert(longer.last() == all[i as int]);
        match &found[i].1 {
            Some(group) => {
                out.push(group.clone());
                assert(string_views(out@) =~= string_views(before).push(group@));
            },
            None => {},
        }
        i += 1;
    }
    assert(all.take(n as int) =~= all);
    out
}

/// Each capture of a list of matches is that of one match.
proof fn lemma_groups(found: Seq<(Seq<char>, Option<Seq<char>>)>, k: int) -> (i: int)
    requires
        0 <= k < groups_in(found).len(),
    ensures
        0 <= i < found.len(),
        found[i].1 == Some(groups_in(found)[k]),
    decreases found.len(),
{
    let before = groups_in(found.drop_last());
    if k < before.len() {
        lemma_groups(found.drop_last(), k)
    } else {
        found.len() - 1
    }
}

/// Extracts hashtag labels from content (not inside code fences).
pub fn extract_tags(content: &str) -> (r: Vec<String>)
    ensures
        string_views(r@) == tags_of(content@),
        forall|i: int| 0 <= i < r@.len() ==> is_tag_label(#[trigger] r@[i]@),
        places::are_tags(content@, string_views(r@)),
{
    proof {
        places::every_match_outside_code_is_a_tag(content@);
    }
    let chars = text::chars_of(content);
    let lines = prose_lines(chars.as_slice());
    let ghost texts = text::views(lines@);
    let mut out: Vec<String> = Vec::new();
    let n: usize = lines.len();
    let mut i: usize = 0;
    assert(string_views(out@) =~= Seq::empty());
    while i < n
        invariant
            i <= n == lines@.len(),
            texts == text::views(lines@),
            string_views(out@) == tags_upto(texts, i as int),
            forall|j: int| 0 <= j < out@.len() ==> is_tag_label(#[trigger] out@[j]@),
        decreases n - i,
    {
        let found = find_matches(HASHTAG_PATTERN, lines[i].as_slice());
        let mut tags = groups_from(&found);
        let ghost before = out@;
        let ghost more = tags@;
        assert forall|j: int| 0 <= j < more.len() implies is_tag_label(#[trigger] more[j]@) by {
            let k = lemma_groups(pair_views(found@), j);
            assert(is_match(HASHTAG_PATTERN@, pair_views(found@)[k]));
            assert(string_views(more)[j] == more[j]@);
        }
        out.append(&mut tags);
        assert(string_views(out@) =~= string_views(before) + string_views(more));
        i += 1;
    }
    out
}

// ---------------------------------------------------------------------------
// Concepts
// ---------------------------------------------------------------------------

/// Words that are commonly capitalised in English prose but are not domain
/// concepts.
pub open spec fn is_stopword(word: Seq<char>) -> bool {
    ||| word == "The"@
    ||| word == "This"@
    ||| word == "These"@
    ||| word == "That"@
    ||| word == "Those"@
    ||| word == "A"@
    ||| word == "An"@
    ||| word == "In"@
    ||| word == "On"@
    ||| word == "At"@
    ||| word == "By"@
    ||| word == "For"@
    ||| word == "From"@
    ||| word == "To"@
    ||| word == "Of"@
    ||| word == "Into"@
    ||| word == "Over"@
    ||| word == "And"@
    ||| word == "Or"@
    ||| word == "But"@
    ||| word == "So"@
    ||| word == "Yet"@
    ||| word == "Nor"@
    ||| word == "We"@
    ||| word == "They"@
    ||| word == "You"@
    ||| word == "It"@
    ||| word == "He"@
    ||| word == "She"@
    ||| word == "Our"@
    ||| word == "Their"@
    ||| word == "Your"@
    ||| word == "Its"@
    ||| word == "Is"@
    ||| word == "Are"@
    ||| word == "Was"@
    ||| word == "Were"@
    ||| word == "Be"@
    ||| word == "Been"@
    ||| word == "Has"@
    ||| word == "Have"@
    ||| word == "Had"@
    ||| word == "Will"@
    ||| word == "Would"@
    ||| word == "Could"@
    ||| word == "Should"@
    ||| word == "May"@
    ||| word == "Might"@
    ||| word == "Must"@
    ||| word == "Not"@
    ||| word == "No"@
    ||| word == "All"@
    ||| word == "Some"@
    ||| word == "Any"@
    ||| word == "Each"@
    ||| word == "Every"@
    ||| word == "Both"@
    ||| word == "Either"@
}

/// Whether a word is commonly capitalised in English prose without being a
/// domain concept.
pub fn stopword(word: &[char]) -> (r: bool)
    ensures
        r == is_stopword(word@),
{
    text::equals(word, "The") || text::equals(word, "This") || text::equals(word, "These")
        || text::equals(word, "That") || text::equals(word, "Those") || text::equals(word,
        "A") || text::equals(word, "An") || text::equals(word, "In") || text::equals(word,
        "On") || text::equals(word, "At") || text::equals(word, "By") || text::equals(word,
        "For") || text::equals(word, "From") || text::equals(word, "To") ||
        text::equals(word, "Of") || text::equals(word, "Into") || text::equals(word, "Over")
        || text::equals(word, "And") || text::equals(word, "Or") || text::equals(word,
        "But") || text::equals(word, "So") || text::equals(word, "Yet") ||
        text::equals(word, "Nor") || text::equals(word, "We") || text::equals(word, "They")
        || text::equals(word, "You") || text::equals(word, "It") || text::equals(word, "He")
        || text::equals(word, "She") || text::equals(word, "Our") || text::equals(word,
        "Their") || text::equals(word, "Your") || text::equals(word, "Its") ||
        text::equals(word, "Is") || text::equals(word, "Are") || text::equals(word, "Was")
        || text::equals(word, "Were") || text::equals(word, "Be") || text::equals(word,
        "Been") || text::equals(word, "Has") || text::equals(word, "Have") ||
        text::equals(word, "Had") || text::equals(word, "Will") || text::equals(word,
        "Would") || text::equals(word, "Could") || text::equals(word, "Should") ||
        text::equals(word, "May") || text::equals(word, "Might") || text::equals(word,
        "Must") || text::equals(word, "Not") || text::equals(word, "No") ||
        text::equals(word, "All") || text::equals(word, "Some") || text::equals(word, "Any")
        || text::equals(word, "Each") || text::equals(word, "Every") || text::equals(word,
        "Both") || text::equals(word, "Either")
}

/// Whether some word of a phrase is a stopword.
pub open spec fn has_stopword(phrase: Seq<char>) -> bool {
    exists|i: int|
        0 <= i < text::words_of(phrase).len() && is_stopword(#[trigger] text::words_of(phrase)[i])
}

/// Whether some word of a phrase is a stopword.
pub fn contains_stopword(phrase: &str) -> (r: bool)
    ensures
        r == has_stopword(phrase@),
{
    let chars = text::chars_of(phrase);
    let words = text::words(chars.as_slice());
    let n: usize = words.len();
    let mut i: usize = 0;
    while i < n
        invariant
            i <= n == words@.len(),
            text::views(words@) == text::words_of(phrase@),
            forall|j: int| 0 <= j < i ==> !is_stopword(#[trigger] text::words_of(phrase@)[j]),
        decreases n - i,
    {
        assert(text::words_of(phrase@)[i as int] == words@[i as int]@);
        if stopword(words[i].as_slice()) {
            return true;
        }
        i += 1;
    }
    false
}

/// The captured phrases that hold no stopword.
pub open spec fn phrases_in(found: Seq<(Seq<char>, Option<Seq<char>>)>) -> Seq<Seq<char>> {
    kept_phrases(groups_in(found))
}

/// Those of the phrases that hold no stopword.
pub open spec fn kept_phrases(phrases: Seq<Seq<char>>) -> Seq<Seq<char>>
    decreases phrases.len(),
{
    if phrases.len() == 0 {
        Seq::empty()
    } else {
        let before = kept_phrases(phrases.drop_last());
        if has_stopword(phrases.last()) {
            before
        } else {
            before.push(phrases.last())
        }
    }
}

/// The phrases of the first `n` lines.
pub open spec fn phrases_upto(lines: Seq<Seq<char>>, n: int) -> Seq<Seq<char>>
    decreases n,
{
    if n <= 0 {
        Seq::empty()
    } else {
        phrases_upto(lines, n - 1) + phrases_in(matches_in(CONCEPT_PATTERN@, lines[n - 1]))
    }
}

/// Whether phrase `i` is the first of several equal ones.
pub open spec fn first_of_several(phrases: Seq<Seq<char>>, i: int) -> bool {
    &&& forall|j: int| 0 <= j < i ==> #[trigger] phrases[j] != phrases[i]
    &&& exists|j: int| i < j < phrases.len() && #[trigger] phrases[j] == phrases[i]
}

/// Those of the first `n` phrases that occur at least twice in all, each once,
/// in the order of their first appearance.
pub open spec fn repeated(phrases: Seq<Seq<char>>, n: int) -> Seq<Seq<char>>
    decreases n,
{
    if n <= 0 {
        Seq::empty()
    } else if first_of_several(phrases, n - 1) {
        repeated(phrases, n - 1).push(phrases[n - 1])
    } else {
        repeated(phrases, n - 1)
    }
}

/// The phrases of a text that may be concepts, in order, with repetitions.
pub open spec fn phrases_of(body: Seq<char>) -> Seq<Seq<char>> {
    phrases_upto(prose_of(body), prose_of(body).len() as int)
}

/// The concepts of a text: its phrases that appear at least twice.
pub open spec fn concepts_of(body: Seq<char>) -> Seq<Seq<char>> {
    repeated(phrases_of(body), phrases_of(body).len() as int)
}

/// The captured phrases that hold no stopword.
pub fn phrases_from(found: &Vec<(String, Option<String>)>) -> (r: Vec<String>)
    ensures
        string_views(r@) == phrases_in(pair_views(found@)),
        forall|k: int|
            0 <= k < r@.len() ==> exists|i: int|
                0 <= i < found@.len() && (#[trigger] pair_views(found@)[i]).1 == Some(
                    (#[trigger] r@[k])@,
                ),
{
    let groups = groups_from(found);
    let ghost all = string_views(groups@);
    let mut out: Vec<String> = Vec::new();
    let n: usize = groups.len();
    let mut i: usize = 0;
    assert(string_views(out@) =~= Seq::empty());
    assert(all.take(0) =~= Seq::empty());
    while i < n
        invariant
            i <= n == groups@.len(),
            all == string_views(groups@),
            all == groups_in(pair_views(found@)),
            string_views(out@) == kept_phrases(all.take(i as int)),
            forall|k: int|
                0 <= k < out@.len() ==> exists|i: int|
                    0 <= i < found@.len() && (#[trigger] pair_views(found@)[i]).1 == Some(
                        (#[trigger] out@[k])@,
                    ),
        decreases n - i,
    {
        let ghost before = out@;
        let ghost longer = all.take(i + 1);
        assert(longer.drop_last() =~= all.take(i as int));
        assert(longer.last() == all[i as int]);
        if !contains_stopword(groups[i].as_str()) {
            out.push(groups[i].clone());
            assert(string_views(out@) =~= string_views(before).push(all[i as int]));
            proof {
                let w = lemma_groups(pair_views(found@), i as int);
                assert(pair_views(found@)[w].1 == Some(out@.last()@));
            }
        }
        i += 1;
    }
    assert(all.take(n as int) =~= all);
    out
}

/// The phrases that occur at least twice, each once, in the order of their
/// first appearance.
pub fn repeated_from(phrases: &Vec<String>) -> (r: Vec<String>)
    ensures
        string_views(r@) == repeated(string_views(phrases@), phrases@.len() as int),
        forall|k: int|
            0 <= k < r@.len() ==> exists|i: int, j: int|
                0 <= i < j < phrases@.len() && (#[trigger] phrases@[i])@ == (#[trigger] r@[k])@ && (
                #[trigger] phrases@[j])@ == r@[k]@,
{
    let ghost all = string_views(phrases@);
    let mut out: Vec<String> = Vec::new();
    let n: usize = phrases.len();
    let mut i: usize = 0;
    assert(string_views(out@) =~= Seq::empty());
    while i < n
        invariant
            i <= n == phrases@.len(),
            all == string_views(phrases@),
            string_views(out@) == repeated(all, i as int),
            forall|k: int|
                0 <= k < out@.len() ==> exists|i: int, j: int|
                    0 <= i < j < phrases@.len() && (#[trigger] phrases@[i])@ == (#[trigger] out@[k])@
                        && (#[trigger] phrases@[j])@ == out@[k]@,
        decreases n - i,
    {
        let mut seen: bool = false;
        let mut again: bool = false;
        let mut j: usize = 0;
        while j < n
            invariant
                i < n == phrases@.len(),
                j <= n,
                all == string_views(phrases@),
                seen == exists|k: int| 0 <= k < j && k < i && #[trigger] all[k] == all[i as int],
                again == exists|k: int| i < k < j && #[trigger] all[k] == all[i as int],
            decreases n - j,
        {
            if j != i && text::same(phrases[j].as_str(), phrases[i].as_str()) {
                assert(all[j as int] == all[i as int]);
                if j < i {
                    seen = true;
                } else {
                    again = true;
                }
            }
            j += 1;
        }
        assert((!seen && again) == first_of_several(all, i as int));
        if !seen && again {
            let ghost before = out@;
            out.push(phrases[i].clone());
            assert(string_views(out@) =~= string_views(before).push(all[i as int]));
            proof {
                let later = choose|k: int| i < k < n && #[trigger] all[k] == all[i as int];
                assert(phrases@[later]@ == out@.last()@);
                assert(phrases@[i as int]@ == out@.last()@);
            }
        }
        i += 1;
    }
    out
}

/// Extracts multi-word capitalised phrases (2 or 3 words, each 3 or more
/// letters) that appear at least twice within `body`. These become `Concept`
/// nodes with inferred confidence.
pub fn extract_concepts(body: &str) -> (r: Vec<String>)
    ensures
        string_views(r@) == concepts_of(body@),
        forall|i: int| 0 <= i < r@.len() ==> is_phrase(#[trigger] r@[i]@),
        places::are_concepts(body@, string_views(r@)),
{
    proof {
        places::phrases_that_stand_twice_are_concepts(body@);
    }
    let chars = text::chars_of(body);
    let lines = prose_lines(chars.as_slice());
    let ghost texts = text::views(lines@);
    let mut phrases: Vec<String> = Vec::new();
    let n: usize = lines.len();
    let mut i: usize = 0;
    assert(string_views(phrases@) =~= Seq::empty());
    while i < n
        invariant
            i <= n == lines@.len(),
            texts == text::views(lines@),
            string_views(phrases@) == phrases_upto(texts, i as int),
            forall|j: int| 0 <= j < phrases@.len() ==> is_phrase(#[trigger] phrases@[j]@),
        decreases n - i,
    {
        let found = find_matches(CONCEPT_PATTERN, lines[i].as_slice());
        let mut more = phrases_from(&found);
        let ghost before = phrases@;
        let ghost added = more@;
        assert forall|j: int| 0 <= j < added.len() implies is_phrase(#[trigger] added[j]@) by {
            let k = choose|k: int|
                0 <= k < found@.len() && (#[trigger] pair_views(found@)[k]).1 == Some(added[j]@);
            assert(is_match(CONCEPT_PATTERN@, pair_views(found@)[k]));
        }
        phrases.append(&mut more);
        assert(string_views(phrases@) =~= string_views(before) + string_views(added));
        i += 1;
    }
    repeated_from(&phrases)
}

// ---------------------------------------------------------------------------
// The graph of a document
// ---------------------------------------------------------------------------

/// The identifier of a document's node.
pub open spec fn doc_node_id(doc_id: Seq<char>) -> Seq<char> {
    "doc_"@ + doc_id
}

/// The node of a document.
pub open spec fn doc_node(doc_id: Seq<char>, title: Seq<char>) -> NodeView {
    NodeView {
        id: doc_node_id(doc_id),
        label: title,
        kind: NodeKind::Document,
        doc_id: Some(doc_id),
        frequency: 1,
    }
}

/// The node of a link's target.
pub open spec fn link_node(target: Seq<char>) -> NodeView {
    NodeView {
        id: "wikilink_"@ + slug_of(target),
        label: target,
        kind: NodeKind::WikiLink,
        doc_id: None,
        frequency: 1,
    }
}

/// The node of a tag.
pub open spec fn tag_node(tag: Seq<char>) -> NodeView {
    NodeView {
        id: "tag_"@ + slug_of(text::lowercase_of(tag)),
        label: "#"@ + text::lowercase_of(tag),
        kind: NodeKind::Tag,
        doc_id: None,
        frequency: 1,
    }
}

/// The node of a concept.
pub open spec fn concept_node(concept: Seq<char>) -> NodeView {
    NodeView {
        id: "concept_"@ + slug_of(concept),
        label: concept,
        kind: NodeKind::Concept,
        doc_id: None,
        frequency: 1,
    }
}

/// The edge from a document to a link's target.
pub open spec fn link_edge(doc_id: Seq<char>, link: (Seq<char>, Option<Seq<char>>)) -> EdgeView {
    EdgeView {
        source: doc_node_id(doc_id),
        target: link_node(link.0).id,
        relation: "links_to"@,
        confidence: Confidence::Extracted,
        weight: LINK_WEIGHT,
        context: link.1,
        doc_id,
    }
}

/// The edge from a document to one of its tags.
pub open spec fn tag_edge(doc_id: Seq<char>, tag: Seq<char>) -> EdgeView {
    EdgeView {
        source: doc_node_id(doc_id),
        target: tag_node(tag).id,
        relation: "tagged"@,
        confidence: Confidence::Extracted,
        weight: TAG_WEIGHT,
        context: None,
        doc_id,
    }
}

/// The edge from a document to one of its concepts.
pub open spec fn concept_edge(doc_id: Seq<char>, concept: Seq<char>) -> EdgeView {
    EdgeView {
        source: doc_node_id(doc_id),
        target: concept_node(concept).id,
        relation: "contains"@,
        confidence: Confidence::Inferred,
        weight: CONCEPT_WEIGHT,
        context: None,
        doc_id,
    }
}

/// Whether one of the nodes has the identifier.
pub open spec fn has_id(nodes: Seq<NodeView>, id: Seq<char>) -> bool {
    exists|i: int| 0 <= i < nodes.len() && (#[trigger] nodes[i]).id == id
}

/// The nodes without those whose identifier an earlier one has.
pub open spec fn distinct(nodes: Seq<NodeView>) -> Seq<NodeView>
    decreases nodes.len(),
{
    if nodes.len() == 0 {
        Seq::empty()
    } else if has_id(nodes.drop_last(), nodes.last().id) {
        distinct(nodes.drop_last())
    } else {
        distinct(nodes.drop_last()).push(nodes.last())
    }
}

/// The nodes of a list of links.
pub open spec fn link_nodes(links: Seq<(Seq<char>, Option<Seq<char>>)>) -> Seq<NodeView> {
    Seq::new(links.len(), |i: int| link_node(links[i].0))
}

/// The edges of a list of links.
pub open spec fn link_edges(
    doc_id: Seq<char>,
    links: Seq<(Seq<char>, Option<Seq<char>>)>,
) -> Seq<EdgeView> {
    Seq::new(links.len(), |i: int| link_edge(doc_id, links[i]))
}

/// The nodes of a list of tags, with repetitions.
pub open spec fn tag_nodes(tags: Seq<Seq<char>>) -> Seq<NodeView> {
    Seq::new(tags.len(), |i: int| tag_node(tags[i]))
}

/// The edges of a list of tags.
pub open spec fn tag_edges(doc_id: Seq<char>, tags: Seq<Seq<char>>) -> Seq<EdgeView> {
    Seq::new(tags.len(), |i: int| tag_edge(doc_id, tags[i]))
}

/// The nodes of a list of concepts, with repetitions.
pub open spec fn concept_nodes(concepts: Seq<Seq<char>>) -> Seq<NodeView> {
    Seq::new(concepts.len(), |i: int| concept_node(concepts[i]))
}

/// The edges of a list of concepts.
pub open spec fn concept_edges(doc_id: Seq<char>, concepts: Seq<Seq<char>>) -> Seq<EdgeView> {
    Seq::new(concepts.len(), |i: int| concept_edge(doc_id, concepts[i]))
}

/// The concepts that differ from the title in more than letter case.
pub open spec fn beside_title(concepts: Seq<Seq<char>>, title: Seq<char>) -> Seq<Seq<char>>
    decreases concepts.len(),
{
    if concepts.len() == 0 {
        Seq::empty()
    } else {
        let before = beside_title(concepts.drop_last(), title);
        if text::lowercase_of(concepts.last()) == text::lowercase_of(title) {
            before
        } else {
            before.push(concepts.last())
        }
    }
}

/// The nodes of a document with the given links, tags and concepts.
pub open spec fn nodes_for(
    doc_id: Seq<char>,
    title: Seq<char>,
    links: Seq<(Seq<char>, Option<Seq<char>>)>,
    tags: Seq<Seq<char>>,
    concepts: Seq<Seq<char>>,
) -> Seq<NodeView> {
    seq![doc_node(doc_id, title)] + link_nodes(links) + distinct(tag_nodes(tags)) + distinct(
        concept_nodes(beside_title(concepts, title)),
    )
}

/// The edges of a document with the given links, tags and concepts.
pub open spec fn edges_for(
    doc_id: Seq<char>,
    title: Seq<char>,
    links: Seq<(Seq<char>, Option<Seq<char>>)>,
    tags: Seq<Seq<char>>,
    concepts: Seq<Seq<char>>,
) -> Seq<EdgeView> {
    link_edges(doc_id, links) + tag_edges(doc_id, tags) + concept_edges(
        doc_id,
        beside_title(concepts, title),
    )
}

/// The nodes that the text of a document gives rise to.
pub open spec fn graph_nodes(doc_id: Seq<char>, title: Seq<char>, body: Seq<char>) -> Seq<
    NodeView,
> {
    nodes_for(doc_id, title, links_of(body), tags_of(body), concepts_of(body))
}

/// The edges that the text of a document gives rise to.
pub open spec fn graph_edges(doc_id: Seq<char>, title: Seq<char>, body: Seq<char>) -> Seq<
    EdgeView,
> {
    edges_for(doc_id, title, links_of(body), tags_of(body), concepts_of(body))
}

/// Whether one of the strings is `s`.
pub fn contains_string(v: &Vec<String>, s: &str) -> (r: bool)
    ensures
        r == string_views(v@).contains(s@),
{
    let n: usize = v.len();
    let mut i: usize = 0;
    while i < n
        invariant
            i <= n == v@.len(),
            forall|j: int| 0 <= j < i ==> #[trigger] string_views(v@)[j] != s@,
        decreases n - i,
    {
        if text::same(v[i].as_str(), s) {
            assert(string_views(v@)[i as int] == s@);
            return true;
        }
        i += 1;
    }
    false
}

/// Adds the nodes and edges of a document's links.
fn add_links(
    doc_id: &str,
    links: &Vec<(String, Option<String>)>,
    nodes: &mut Vec<Node>,
    edges: &mut Vec<Edge>,
)
    ensures
        node_views(final(nodes)@) == node_views(old(nodes)@) + link_nodes(pair_views(links@)),
        edge_views(final(edges)@) == edge_views(old(edges)@) + link_edges(
            doc_id@,
            pair_views(links@),
        ),
{
    let ghost all = pair_views(links@);
    let ghost nodes0 = node_views(nodes@);
    let ghost edges0 = edge_views(edges@);
    let n: usize = links.len();
    let mut i: usize = 0;
    assert(link_nodes(all).take(0) =~= Seq::empty());
    assert(link_edges(doc_id@, all).take(0) =~= Seq::empty());
    while i < n
        invariant
            i <= n == links@.len(),
            all == pair_views(links@),
            node_views(nodes@) == nodes0 + link_nodes(all).take(i as int),
            edge_views(edges@) == edges0 + link_edges(doc_id@, all).take(i as int),
        decreases n - i,
    {
        let ghost nodes1 = nodes@;
        let ghost edges1 = edges@;
        let slug = slug(links[i].0.as_str());
        let target_id = text::concat("wikilink_", slug.as_str());
        nodes.push(
            Node {
                id: target_id.clone(),
                label: links[i].0.clone(),
                kind: NodeKind::WikiLink,
                doc_id: None,
                frequency: 1,
            },
        );
        edges.push(
            Edge {
                source: text::concat("doc_", doc_id),
                target: target_id,
                relation: "links_to".to_owned(),
                confidence: Confidence::Extracted,
                weight: LINK_WEIGHT,
                context: document::clone_opt(&links[i].1),
                doc_id: doc_id.to_owned(),
            },
        );
        assert(node_views(nodes@) =~= node_views(nodes1).push(link_node(all[i as int].0)));
        assert(edge_views(edges@) =~= edge_views(edges1).push(link_edge(doc_id@, all[i as int])));
        i += 1;
        assert(link_nodes(all).take(i as int) =~= link_nodes(all).take(i - 1).push(
            link_nodes(all)[i - 1],
        ));
        assert(link_edges(doc_id@, all).take(i as int) =~= link_edges(doc_id@, all).take(
            i - 1,
        ).push(link_edges(doc_id@, all)[i - 1]));
    }
    assert(link_nodes(all).take(n as int) =~= link_nodes(all));
    assert(link_edges(doc_id@, all).take(n as int) =~= link_edges(doc_id@, all));
}

/// The strings seen are the identifiers of the nodes.
proof fn lemma_seen(seen: Seq<Seq<char>>, nodes: Seq<NodeView>, id: Seq<char>)
    requires
        seen.len() == nodes.len(),
        forall|i: int| 0 <= i < nodes.len() ==> #[trigger] seen[i] == nodes[i].id,
    ensures
        seen.contains(id) == has_id(nodes, id),
{
    if seen.contains(id) {
        let i = choose|i: int| 0 <= i < seen.len() && seen[i] == id;
        assert(nodes[i].id == id);
    }
    if has_id(nodes, id) {
        let i = choose|i: int| 0 <= i < nodes.len() && (#[trigger] nodes[i]).id == id;
        assert(seen[i] == id);
    }
}

/// Adds the nodes and edges of a document's tags.
fn add_tags(doc_id: &str, tags: &Vec<String>, nodes: &mut Vec<Node>, edges: &mut Vec<Edge>)
    ensures
        node_views(final(nodes)@) == node_views(old(nodes)@) + distinct(
            tag_nodes(string_views(tags@)),
        ),
        edge_views(final(edges)@) == edge_views(old(edges)@) + tag_edges(
            doc_id@,
            string_views(tags@),
        ),
{
    let ghost all = string_views(tags@);
    let ghost every = tag_nodes(all);
    let ghost nodes0 = node_views(nodes@);
    let ghost edges0 = edge_views(edges@);
    let n: usize = tags.len();
    let mut seen: Vec<String> = Vec::new();
    let mut i: usize = 0;
    assert(every.take(0) =~= Seq::empty());
    assert(distinct(every.take(0)) =~= Seq::empty());
    assert(tag_edges(doc_id@, all).take(0) =~= Seq::empty());
    while i < n
        invariant
            i <= n == tags@.len(),
            all == string_views(tags@),
            every == tag_nodes(all),
            seen@.len() == i,
            forall|j: int| 0 <= j < i ==> (#[trigger] seen@[j])@ == every[j].id,
            node_views(nodes@) == nodes0 + distinct(every.take(i as int)),
            edge_views(edges@) == edges0 + tag_edges(doc_id@, all).take(i as int),
        decreases n - i,
    {
        let ghost nodes1 = nodes@;
        let ghost edges1 = edges@;
        let lower = text::lowercase(tags[i].as_str());
        let slug = slug(lower.as_str());
        let tag_id = text::concat("tag_", slug.as_str());
        let ghost longer = every.take(i + 1);
        assert(longer.drop_last() =~= every.take(i as int));
        assert(longer.last() == tag_node(all[i as int]));
        proof {
            lemma_seen(string_views(seen@), every.take(i as int), tag_id@);
        }
        if !contains_string(&seen, tag_id.as_str()) {
            nodes.push(
                Node {
                    id: tag_id.clone(),
                    label: text::concat("#", lower.as_str()),
                    kind: NodeKind::Tag,
                    doc_id: None,
                    frequency: 1,
                },
            );
            assert(node_views(nodes@) =~= node_views(nodes1).push(tag_node(all[i as int])));
        }
        seen.push(tag_id.clone());
        edges.push(
            Edge {
                source: text::concat("doc_", doc_id),
                target: tag_id,
                relation: "tagged".to_owned(),
                confidence: Confidence::Extracted,
                weight: TAG_WEIGHT,
                context: None,
                doc_id: doc_id.to_owned(),
            },
        );
        assert(edge_views(edges@) =~= edge_views(edges1).push(tag_edge(doc_id@, all[i as int])));
        i += 1;
        assert(tag_edges(doc_id@, all).take(i as int) =~= tag_edges(doc_id@, all).take(i - 1).push(
            tag_edges(doc_id@, all)[i - 1],
        ));
    }
    assert(every.take(n as int) =~= every);
    assert(tag_edges(doc_id@, all).take(n as int) =~= tag_edges(doc_id@, all));
}

/// The concepts that differ from the title in more than letter case.
pub fn without_title(concepts: &Vec<String>, title: &str) -> (r: Vec<String>)
    ensures
        string_views(r@) == beside_title(string_views(concepts@), title@),
{
    let lower = text::lowercase(title);
    let ghost all = string_views(concepts@);
    let mut out: Vec<String> = Vec::new();
    let n: usize = concepts.len();
    let mut i: usize = 0;
    assert(string_views(out@) =~= Seq::empty());
    assert(all.take(0) =~= Seq::empty());
    while i < n
        invariant
            i <= n == concepts@.len(),
            all == string_views(concepts@),
            lower@ == text::lowercase_of(title@),
            string_views(out@) == beside_title(all.take(i as int), title@),
        decreases n - i,
    {
        let ghost before = out@;
        let ghost longer = all.take(i + 1);
        assert(longer.drop_last() =~= all.take(i as int));
        assert(longer.last() == all[i as int]);
        let own = text::lowercase(concepts[i].as_str());
        if !text::same(own.as_str(), lower.as_str()) {
            out.push(concepts[i].clone());
            assert(string_views(out@) =~= string_views(before).push(all[i as int]));
        }
        i += 1;
    }
    assert(all.take(n as int) =~= all);
    out
}

/// Adds the nodes and edges of a document's concepts.
fn add_concepts(doc_id: &str, concepts: &Vec<String>, nodes: &mut Vec<Node>, edges: &mut Vec<Edge>)
    ensures
        node_views(final(nodes)@) == node_views(old(nodes)@) + distinct(
            concept_nodes(string_views(concepts@)),
        ),
        edge_views(final(edges)@) == edge_views(old(edges)@) + concept_edges(
            doc_id@,
            string_views(concepts@),
        ),
{
    let ghost all = string_views(concepts@);
    let ghost every = concept_nodes(all);
    let ghost nodes0 = node_views(nodes@);
    let ghost edges0 = edge_views(edges@);
    let n: usize = concepts.len();
    let mut seen: Vec<String> = Vec::new();
    let mut i: usize = 0;
    assert(every.take(0) =~= Seq::empty());
    assert(distinct(every.take(0)) =~= Seq::empty());
    assert(concept_edges(doc_id@, all).take(0) =~= Seq::empty());
    while i < n
        invariant
            i <= n == concepts@.len(),
            all == string_views(concepts@),
            every == concept_nodes(all),
            seen@.len() == i,
            forall|j: int| 0 <= j < i ==> (#[trigger] seen@[j])@ == every[j].id,
            node_views(nodes@) == nodes0 + distinct(every.take(i as int)),
            edge_views(edges@) == edges0 + concept_edges(doc_id@, all).take(i as int),
        decreases n - i,
    {
        let ghost nodes1 = nodes@;
        let ghost edges1 = edges@;
        let slug = slug(concepts[i].as_str());
        let concept_id = text::concat("concept_", slug.as_str());
        let ghost longer = every.take(i + 1);
        assert(longer.drop_last() =~= every.take(i as int));
        assert(longer.last() == concept_node(all[i as int]));
        proof {
            lemma_seen(string_views(seen@), every.take(i as int), concept_id@);
        }
        if !contains_string(&seen, concept_id.as_str()) {
            nodes.push(
                Node {
                    id: concept_id.clone(),
                    label: concepts[i].clone(),
                    kind: NodeKind::Concept,
                    doc_id: None,
                    frequency: 1,
                },
            );
            assert(node_views(nodes@) =~= node_views(nodes1).push(concept_node(all[i as int])));
        }
        seen.push(concept_id.clone());
        edges.push(
            Edge {
                source: text::concat("doc_", doc_id),
                target: concept_id,
                relation: "contains".to_owned(),
                confidence: Confidence::Inferred,
                weight: CONCEPT_WEIGHT,
                context: None,
                doc_id: doc_id.to_owned(),
            },
        );
        assert(edge_views(edges@) =~= edge_views(edges1).push(
            concept_edge(doc_id@, all[i as int]),
        ));
        i += 1;
        assert(concept_edges(doc_id@, all).take(i as int) =~= concept_edges(doc_id@, all).take(
            i - 1,
        ).push(concept_edges(doc_id@, all)[i - 1]));
    }
    assert(every.take(n as int) =~= every);
    assert(concept_edges(doc_id@, all).take(n as int) =~= concept_edges(doc_id@, all));
}

/// The nodes and edges of a document with the given links, tags and concepts.
pub fn graph_from(
    doc_id: &str,
    title: &str,
    links: &Vec<(String, Option<String>)>,
    tags: &Vec<String>,
    concepts: &Vec<String>,
) -> (r: (Vec<Node>, Vec<Edge>))
    ensures
        node_views(r.0@) == nodes_for(
            doc_id@,
            title@,
            pair_views(links@),
            string_views(tags@),
            string_views(concepts@),
        ),
        edge_views(r.1@) == edges_for(
            doc_id@,
            title@,
            pair_views(links@),
            string_views(tags@),
            string_views(concepts@),
        ),
        is_graph_of(
            doc_id@,
            title@,
            pair_views(links@),
            string_views(tags@),
            string_views(concepts@),
            node_views(r.0@),
            edge_views(r.1@),
        ),
{
    proof {
        graphs_hold_what_the_text_names(
            doc_id@,
            title@,
            pair_views(links@),
            string_views(tags@),
            string_views(concepts@),
        );
    }
    let mut nodes: Vec<Node> = Vec::new();
    let mut edges: Vec<Edge> = Vec::new();
    nodes.push(
        Node {
            id: text::concat("doc_", doc_id),
            label: title.to_owned(),
            kind: NodeKind::Document,
            doc_id: Some(doc_id.to_owned()),
            frequency: 1,
        },
    );
    assert(node_views(nodes@) =~= seq![doc_node(doc_id@, title@)]);
    assert(edge_views(edges@) =~= Seq::empty());
    add_links(doc_id, links, &mut nodes, &mut edges);
    assert(edge_views(edges@) =~= link_edges(doc_id@, pair_views(links@)));
    add_tags(doc_id, tags, &mut nodes, &mut edges);
    let kept = without_title(concepts, title);
    add_concepts(doc_id, &kept, &mut nodes, &mut edges);
    (nodes, edges)
}

/// Builds the node and edge lists for one document.
pub fn extract_graph(doc_id: &str, title: &str, body: &str) -> (r: (Vec<Node>, Vec<Edge>))
    ensures
        node_views(r.0@) == graph_nodes(doc_id@, title@, body@),
        edge_views(r.1@) == graph_edges(doc_id@, title@, body@),
        exists|
            links: Seq<(Seq<char>, Option<Seq<char>>)>,
            tags: Seq<Seq<char>>,
            concepts: Seq<Seq<char>>,
        |
            places::are_links(body@, links) && places::are_tags(body@, tags)
                && places::are_concepts(body@, concepts) && #[trigger] is_graph_of(
                doc_id@,
                title@,
                links,
                tags,
                concepts,
                node_views(r.0@),
                edge_views(r.1@),
            ),
{
    let links = extract_wikilinks(body);
    let tags = extract_tags(body);
    let concepts = extract_concepts(body);
    graph_from(doc_id, title, &links, &tags, &concepts)
}

// ---------------------------------------------------------------------------
// Laws
// ---------------------------------------------------------------------------

/// `distinct` leaves no two nodes with one identifier and loses no identifier.
pub proof fn distinct_nodes_are_distinct(nodes: Seq<NodeView>)
    ensures
        forall|i: int, j: int|
            0 <= i < j < distinct(nodes).len() ==> (#[trigger] distinct(nodes)[i]).id != (
            #[trigger] distinct(nodes)[j]).id,
        forall|id: Seq<char>| #[trigger] has_id(distinct(nodes), id) == has_id(nodes, id),
    decreases nodes.len(),
{
    if nodes.len() > 0 {
        let front = nodes.drop_last();
        distinct_nodes_are_distinct(front);
        let kept = distinct(front);
        assert forall|i: int, j: int|
            0 <= i < j < distinct(nodes).len() implies (#[trigger] distinct(nodes)[i]).id != (
        #[trigger] distinct(nodes)[j]).id by {
            if j == kept.len() {
                if kept[i].id == nodes.last().id {
                    assert(has_id(kept, nodes.last().id));
                }
            } else {
                assert(distinct(nodes)[i] == kept[i]);
                assert(distinct(nodes)[j] == kept[j]);
            }
        }
        assert forall|id: Seq<char>| #[trigger]
            has_id(distinct(nodes), id) == has_id(nodes, id) by {
            assert(has_id(kept, id) == has_id(front, id));
            if has_id(nodes, id) {
                let i = choose|i: int| 0 <= i < nodes.len() && (#[trigger] nodes[i]).id == id;
                if i < front.len() {
                    assert(front[i].id == id);
                    let k = choose|k: int| 0 <= k < kept.len() && (#[trigger] kept[k]).id == id;
                    assert(distinct(nodes)[k].id == id);
                } else if has_id(front, id) {
                    let k = choose|k: int| 0 <= k < kept.len() && (#[trigger] kept[k]).id == id;
                    assert(distinct(nodes)[k].id == id);
                } else {
                    assert(distinct(nodes)[kept.len() as int].id == id);
                }
            }
            if has_id(distinct(nodes), id) {
                let k = choose|k: int|
                    0 <= k < distinct(nodes).len() && (#[trigger] distinct(nodes)[k]).id == id;
                if k < kept.len() {
                    assert(kept[k].id == id);
                    let i = choose|i: int| 0 <= i < front.len() && (#[trigger] front[i]).id == id;
                    assert(nodes[i].id == id);
                } else {
                    assert(nodes[nodes.len() - 1].id == id);
                }
            }
        }
    } else {
        assert forall|id: Seq<char>| #[trigger]
            has_id(distinct(nodes), id) == has_id(nodes, id) by {
            assert(distinct(nodes) =~= nodes);
        }
    }
}

/// Every edge of a document's graph leaves the document's node, belongs to the
/// document and ends at a node of the graph that is no document.
pub proof fn edges_join_nodes_of_the_graph(
    doc_id: Seq<char>,
    title: Seq<char>,
    links: Seq<(Seq<char>, Option<Seq<char>>)>,
    tags: Seq<Seq<char>>,
    concepts: Seq<Seq<char>>,
    k: int,
)
    requires
        0 <= k < edges_for(doc_id, title, links, tags, concepts).len(),
    ensures
        ({
            let nodes = nodes_for(doc_id, title, links, tags, concepts);
            let edge = edges_for(doc_id, title, links, tags, concepts)[k];
            &&& edge.source == nodes[0].id
            &&& nodes[0] == doc_node(doc_id, title)
            &&& edge.doc_id == doc_id
            &&& has_id(nodes, edge.target)
            &&& !text::begins_with(edge.target, "doc_"@)
        }),
{
    reveal_strlit("doc_");
    reveal_strlit("wikilink_");
    reveal_strlit("tag_");
    reveal_strlit("concept_");
    let nodes = nodes_for(doc_id, title, links, tags, concepts);
    let edge = edges_for(doc_id, title, links, tags, concepts)[k];
    let kept = beside_title(concepts, title);
    let a = seq![doc_node(doc_id, title)] + link_nodes(links);
    let b = distinct(tag_nodes(tags));
    let c = distinct(concept_nodes(kept));
    assert(nodes == a + b + c);
    if k < links.len() {
        assert(nodes[k + 1] == link_node(links[k].0));
    } else if k < links.len() + tags.len() {
        let t = k - links.len();
        assert(edge == tag_edge(doc_id, tags[t]));
        assert(tag_nodes(tags)[t].id == edge.target);
        assert(has_id(tag_nodes(tags), edge.target));
        distinct_nodes_are_distinct(tag_nodes(tags));
        assert(has_id(b, edge.target));
        let i = choose|i: int| 0 <= i < b.len() && (#[trigger] b[i]).id == edge.target;
        assert(nodes[a.len() + i] == b[i]);
    } else {
        let t = k - links.len() - tags.len();
        assert(edge == concept_edge(doc_id, kept[t]));
        assert(concept_nodes(kept)[t].id == edge.target);
        assert(has_id(concept_nodes(kept), edge.target));
        distinct_nodes_are_distinct(concept_nodes(kept));
        assert(has_id(c, edge.target));
        let i = choose|i: int| 0 <= i < c.len() && (#[trigger] c[i]).id == edge.target;
        assert(nodes[a.len() + b.len() + i] == c[i]);
    }
    assert(edge.target[0] != 'd');
    if text::begins_with(edge.target, "doc_"@) {
        assert(edge.target.subrange(0, 4)[0] == "doc_"@[0]);
    }
}

/// Every node of a document's graph but the document's own is the end of one of
/// its edges.
pub proof fn nodes_of_the_graph_are_linked(
    doc_id: Seq<char>,
    title: Seq<char>,
    links: Seq<(Seq<char>, Option<Seq<char>>)>,
    tags: Seq<Seq<char>>,
    concepts: Seq<Seq<char>>,
    k: int,
) -> (j: int)
    requires
        1 <= k < nodes_for(doc_id, title, links, tags, concepts).len(),
    ensures
        0 <= j < edges_for(doc_id, title, links, tags, concepts).len(),
        edges_for(doc_id, title, links, tags, concepts)[j].target == nodes_for(
            doc_id,
            title,
            links,
            tags,
            concepts,
        )[k].id,
{
    let nodes = nodes_for(doc_id, title, links, tags, concepts);
    let edges = edges_for(doc_id, title, links, tags, concepts);
    let kept = beside_title(concepts, title);
    let a = seq![doc_node(doc_id, title)] + link_nodes(links);
    let b = distinct(tag_nodes(tags));
    let c = distinct(concept_nodes(kept));
    assert(nodes == a + b + c);
    if k < a.len() {
        assert(nodes[k] == link_node(links[k - 1].0));
        assert(edges[k - 1] == link_edge(doc_id, links[k - 1]));
        k - 1
    } else if k < a.len() + b.len() {
        let id = nodes[k].id;
        assert(nodes[k] == b[k - a.len()]);
        distinct_nodes_are_distinct(tag_nodes(tags));
        assert(has_id(b, id));
        assert(has_id(tag_nodes(tags), id));
        let t = choose|t: int|
            0 <= t < tag_nodes(tags).len() && (#[trigger] tag_nodes(tags)[t]).id == id;
        assert(edges[links.len() + t] == tag_edge(doc_id, tags[t]));
        links.len() + t
    } else {
        let id = nodes[k].id;
        assert(nodes[k] == c[k - a.len() - b.len()]);
        distinct_nodes_are_distinct(concept_nodes(kept));
        assert(has_id(c, id));
        assert(has_id(concept_nodes(kept), id));
        let t = choose|t: int|
            0 <= t < concept_nodes(kept).len() && (#[trigger] concept_nodes(kept)[t]).id == id;
        assert(edges[links.len() + tags.len() + t] == concept_edge(doc_id, kept[t]));
        links.len() + tags.len() + t
    }
}

/// The confidence of an edge follows from its relation: concepts are inferred,
/// links and tags are extracted.
pub proof fn only_concepts_are_inferred(
    doc_id: Seq<char>,
    title: Seq<char>,
    links: Seq<(Seq<char>, Option<Seq<char>>)>,
    tags: Seq<Seq<char>>,
    concepts: Seq<Seq<char>>,
    k: int,
)
    requires
        0 <= k < edges_for(doc_id, title, links, tags, concepts).len(),
    ensures
        ({
            let edge = edges_for(doc_id, title, links, tags, concepts)[k];
            &&& edge.relation == "links_to"@ || edge.relation == "tagged"@ || edge.relation
                == "contains"@
            &&& edge.relation == "contains"@ <==> edge.confidence == Confidence::Inferred
            &&& edge.relation != "contains"@ <==> edge.confidence == Confidence::Extracted
        }),
{
    reveal_strlit("links_to");
    reveal_strlit("tagged");
    reveal_strlit("contains");
    assert("links_to"@[0] != "contains"@[0]);
    assert("tagged"@[0] != "contains"@[0]);
}

/// Parts of lower-case ASCII letters and digits, joined by underscores, are a slug.
proof fn lemma_joined_is_slug(parts: Seq<Seq<char>>)
    requires
        forall|k: int, i: int|
            0 <= k < parts.len() && 0 <= i < parts[k].len() ==> is_plain(#[trigger] parts[k][i]),
        forall|k: int| 0 <= k < parts.len() ==> (#[trigger] parts[k]).len() > 0,
    ensures
        is_slug(text::joined(parts, "_"@)),
        parts.len() > 0 ==> text::joined(parts, "_"@).len() > 0,
    decreases parts.len(),
{
    reveal_strlit("_");
    let now = text::joined(parts, "_"@);
    if parts.len() > 0 {
        let last = parts[parts.len() - 1];
        assert forall|i: int| 0 <= i < last.len() implies is_plain(#[trigger] last[i]) by {
            assert(is_plain(parts[parts.len() - 1][i]));
        }
        if parts.len() > 1 {
            let front = parts.drop_last();
            assert forall|k: int, i: int|
                0 <= k < front.len() && 0 <= i < front[k].len() implies is_plain(
                #[trigger] front[k][i],
            ) by {
                assert(is_plain(parts[k][i]));
            }
            lemma_joined_is_slug(front);
            let before = text::joined(front, "_"@);
            assert(now =~= before + seq!['_'] + last);
            assert forall|i: int| 0 <= i < now.len() implies is_plain(#[trigger] now[i]) || now[i]
                == '_' by {
                if i < before.len() {
                    assert(now[i] == before[i]);
                } else if i > before.len() {
                    assert(now[i] == last[i - before.len() - 1]);
                }
            }
            assert forall|i: int| 0 < i < now.len() && #[trigger] now[i] == '_' implies now[i - 1]
                != '_' by {
                if i < before.len() {
                    assert(now[i] == before[i]);
                    assert(now[i - 1] == before[i - 1]);
                } else if i == before.len() {
                    assert(now[i - 1] == before.last());
                } else {
                    assert(now[i] == last[i - before.len() - 1]);
                }
            }
            assert(now[0] == before[0]);
            assert(now.last() == last.last());
            assert(is_plain(last[last.len() - 1]));
        } else {
            assert(now == last);
            assert(is_plain(last[0]) && is_plain(last[last.len() - 1]));
        }
    }
}

/// Runs hold lower-case ASCII letters and digits only, and at least one; there is
/// one exactly where the text holds such a character.
proof fn lemma_runs(s: Seq<char>)
    ensures
        forall|k: int, i: int|
            0 <= k < runs_of(s).len() && 0 <= i < runs_of(s)[k].len() ==> is_plain(
                #[trigger] runs_of(s)[k][i],
            ),
        forall|k: int| 0 <= k < runs_of(s).len() ==> (#[trigger] runs_of(s)[k]).len() > 0,
        runs_of(s).len() == 0 <==> forall|i: int| 0 <= i < s.len() ==> !is_plain(#[trigger] s[i]),
    decreases s.len(),
{
    if s.len() > 0 {
        lemma_run_end_bound(s);
        let rest = if is_plain(s[0]) {
            s.skip(run_end(s) as int)
        } else {
            s.skip(1)
        };
        lemma_runs(rest);
        assert forall|k: int, i: int|
            0 <= k < runs_of(s).len() && 0 <= i < runs_of(s)[k].len() implies is_plain(
            #[trigger] runs_of(s)[k][i],
        ) by {
            if is_plain(s[0]) {
                if k == 0 {
                    assert(runs_of(s)[0] == s.take(run_end(s) as int));
                } else {
                    assert(runs_of(s)[k] == runs_of(rest)[k - 1]);
                    assert(is_plain(runs_of(rest)[k - 1][i]));
                }
            } else {
                assert(is_plain(runs_of(rest)[k][i]));
            }
        }
        assert forall|k: int| 0 <= k < runs_of(s).len() implies (#[trigger] runs_of(s)[k]).len()
            > 0 by {
            if is_plain(s[0]) {
                if k > 0 {
                    assert(runs_of(s)[k] == runs_of(rest)[k - 1]);
                }
            } else {
                assert(runs_of(s)[k] == runs_of(rest)[k]);
            }
        }
        if !is_plain(s[0]) {
            if runs_of(s).len() == 0 {
                assert forall|i: int| 0 <= i < s.len() implies !is_plain(#[trigger] s[i]) by {
                    if i > 0 {
                        assert(rest[i - 1] == s[i]);
                    }
                }
            } else {
                let i = choose|i: int| 0 <= i < rest.len() && is_plain(#[trigger] rest[i]);
                assert(is_plain(s[i + 1]));
            }
        }
    }
}

/// A spelling holds a lower-case ASCII letter or a digit exactly where the text
/// holds a character that slugs tell of.
proof fn lemma_spelling(s: Seq<char>)
    ensures
        (forall|i: int| 0 <= i < spelled_out(s).len() ==> !is_plain(#[trigger] spelled_out(s)[i]))
            <==> (forall|i: int| 0 <= i < s.len() ==> !is_slug_char(#[trigger] s[i])),
    decreases s.len(),
{
    if s.len() > 0 {
        let front = s.drop_last();
        let last = s.last();
        let before = spelled_out(front);
        let all = spelled_out(s);
        lemma_spelling(front);
        lemma_spelled(last);
        if forall|i: int| 0 <= i < all.len() ==> !is_plain(#[trigger] all[i]) {
            assert forall|i: int| 0 <= i < before.len() implies !is_plain(#[trigger] before[i]) by {
                assert(all[i] == before[i]);
            }
            assert(all[before.len() as int] == spelled(last)[0]);
            assert forall|i: int| 0 <= i < s.len() implies !is_slug_char(#[trigger] s[i]) by {
                if i < front.len() {
                    assert(front[i] == s[i]);
                }
            }
        }
        if forall|i: int| 0 <= i < s.len() ==> !is_slug_char(#[trigger] s[i]) {
            assert forall|i: int| 0 <= i < front.len() implies !is_slug_char(
                #[trigger] front[i],
            ) by {
                assert(front[i] == s[i]);
            }
            assert(!is_slug_char(s[s.len() - 1]));
            assert forall|i: int| 0 <= i < all.len() implies !is_plain(#[trigger] all[i]) by {
                if i < before.len() {
                    assert(all[i] == before[i]);
                } else {
                    assert(all[i] == '_');
                }
            }
        }
    }
}

/// What a slug tells of is spelled by lower-case ASCII letters and digits.
proof fn lemma_spelled(c: char)
    ensures
        spelled(c).len() > 0,
        is_slug_char(c) ==> forall|i: int|
            0 <= i < spelled(c).len() ==> is_plain(#[trigger] spelled(c)[i]),
        !is_slug_char(c) ==> spelled(c) == seq!['_'],
{
}

/// A text made safe for addresses is a slug, and empty exactly where the text
/// holds nothing that slugs tell of.
proof fn safe_texts_are_slugs(s: Seq<char>)
    ensures
        is_slug(slug_text(s)),
        slug_text(s).len() == 0 <==> forall|i: int|
            0 <= i < s.len() ==> !is_slug_char(#[trigger] s[i]),
{
    let spelling = spelled_out(s);
    lemma_spelling(s);
    lemma_runs(spelling);
    lemma_joined_is_slug(runs_of(spelling));
}

/// A slug is URL-safe: it holds lower-case ASCII letters, digits and underscores
/// only, with no underscore at either end and no two in a row. It is empty
/// exactly where the lower-case label holds no letter and no digit.
pub proof fn slugs_are_plain(label: Seq<char>)
    ensures
        is_slug(slug_of(label)),
        slug_of(label).len() == 0 <==> forall|i: int|
            0 <= i < text::lowercase_of(label).len() ==> !is_slug_char(
                #[trigger] text::lowercase_of(label)[i],
            ),
{
    safe_texts_are_slugs(text::lowercase_of(label));
}

/// Whether a text is made up of letters and digits beyond ASCII.
pub open spec fn is_beyond_ascii(s: Seq<char>) -> bool {
    forall|i: int| 0 <= i < s.len() ==> (#[trigger] s[i]) as u32 > 127 && text::alphanumeric(s[i])
}

/// Code points tell characters apart.
proof fn lemma_codes_differ(a: char, b: char)
    requires
        code_of(a) == code_of(b),
    ensures
        a == b,
{
    let u = a as u32;
    let v = b as u32;
    assert(code_of(a)[1] == code_of(b)[1]);
    assert(code_of(a)[2] == code_of(b)[2]);
    assert(code_of(a)[3] == code_of(b)[3]);
    assert(code_of(a)[4] == code_of(b)[4]);
    assert(code_of(a)[5] == code_of(b)[5]);
    assert(code_of(a)[6] == code_of(b)[6]);
    lemma_hex_digits_differ((u / 0x100000 % 16) as int, (v / 0x100000 % 16) as int);
    lemma_hex_digits_differ((u / 0x10000 % 16) as int, (v / 0x10000 % 16) as int);
    lemma_hex_digits_differ((u / 0x1000 % 16) as int, (v / 0x1000 % 16) as int);
    lemma_hex_digits_differ((u / 0x100 % 16) as int, (v / 0x100 % 16) as int);
    lemma_hex_digits_differ((u / 0x10 % 16) as int, (v / 0x10 % 16) as int);
    lemma_hex_digits_differ((u % 16) as int, (v % 16) as int);
    assert(u == v) by (bit_vector)
        requires
            u < 0x1000000,
            v < 0x1000000,
            u / 0x100000 % 16 == v / 0x100000 % 16,
            u / 0x10000 % 16 == v / 0x10000 % 16,
            u / 0x1000 % 16 == v / 0x1000 % 16,
            u / 0x100 % 16 == v / 0x100 % 16,
            u / 0x10 % 16 == v / 0x10 % 16,
            u % 16 == v % 16,
    ;
}

proof fn lemma_hex_digits_differ(a: int, b: int)
    requires
        0 <= a < 16,
        0 <= b < 16,
        document::hex_digit(a) == document::hex_digit(b),
    ensures
        a == b,
{
    let x = document::hex_digit(a) as u32;
    let y = document::hex_digit(b) as u32;
    assert(x == if a < 10 { 48 + a } else { 87 + a });
    assert(y == if b < 10 { 48 + b } else { 87 + b });
}

proof fn lemma_spelling_beyond_ascii(s: Seq<char>)
    requires
        is_beyond_ascii(s),
    ensures
        spelled_out(s).len() == 7 * s.len(),
        forall|i: int| 0 <= i < spelled_out(s).len() ==> is_plain(#[trigger] spelled_out(s)[i]),
    decreases s.len(),
{
    if s.len() > 0 {
        let front = s.drop_last();
        assert(s[s.len() - 1] as u32 > 127);
        lemma_spelling_beyond_ascii(front);
        lemma_spelled(s.last());
        assert forall|i: int| 0 <= i < spelled_out(s).len() implies is_plain(
            #[trigger] spelled_out(s)[i],
        ) by {
            if i < spelled_out(front).len() {
                assert(spelled_out(s)[i] == spelled_out(front)[i]);
            } else {
                assert(spelled_out(s)[i] == spelled(s.last())[i - spelled_out(front).len()]);
            }
        }
    }
}

proof fn lemma_spellings_differ(a: Seq<char>, b: Seq<char>)
    requires
        is_beyond_ascii(a),
        is_beyond_ascii(b),
        spelled_out(a) == spelled_out(b),
    ensures
        a == b,
    decreases a.len(),
{
    lemma_spelling_beyond_ascii(a);
    lemma_spelling_beyond_ascii(b);
    if a.len() > 0 {
        let n = 7 * (a.len() - 1);
        assert(a[a.len() - 1] as u32 > 127 && b[b.len() - 1] as u32 > 127);
        lemma_spelling_beyond_ascii(a.drop_last());
        lemma_spelling_beyond_ascii(b.drop_last());
        assert(spelled_out(a).skip(n) =~= code_of(a.last()));
        assert(spelled_out(b).skip(n) =~= code_of(b.last()));
        assert(spelled_out(a).take(n) =~= spelled_out(a.drop_last()));
        assert(spelled_out(b).take(n) =~= spelled_out(b.drop_last()));
        lemma_codes_differ(a.last(), b.last());
        lemma_spellings_differ(a.drop_last(), b.drop_last());
        assert(a =~= a.drop_last().push(a.last()));
        assert(b =~= b.drop_last().push(b.last()));
    } else {
        assert(a =~= b);
    }
}

/// Labels of letters and digits beyond ASCII are told apart by their slugs, as far
/// as their lower-case forms differ.
pub proof fn slugs_tell_labels_apart(a: Seq<char>, b: Seq<char>)
    requires
        is_beyond_ascii(text::lowercase_of(a)),
        is_beyond_ascii(text::lowercase_of(b)),
        text::lowercase_of(a) != text::lowercase_of(b),
    ensures
        slug_of(a) != slug_of(b),
{
    let x = text::lowercase_of(a);
    let y = text::lowercase_of(b);
    lemma_one_run(x);
    lemma_one_run(y);
    if slug_of(a) == slug_of(b) {
        lemma_spellings_differ(x, y);
    }
}

proof fn lemma_one_run(s: Seq<char>)
    requires
        is_beyond_ascii(s),
    ensures
        slug_text(s) == spelled_out(s),
{
    let spelling = spelled_out(s);
    lemma_spelling_beyond_ascii(s);
    assert(is_slug(spelling));
    lemma_runs_make_up_slug(spelling);
}

/// The first of several parts stands before the others.
proof fn lemma_joined_front(first: Seq<char>, rest: Seq<Seq<char>>)
    requires
        rest.len() > 0,
    ensures
        text::joined(seq![first] + rest, "_"@) == first + "_"@ + text::joined(rest, "_"@),
    decreases rest.len(),
{
    let all = seq![first] + rest;
    assert(all.last() == rest.last());
    if rest.len() == 1 {
        assert(all.drop_last() =~= seq![first]);
        assert(text::joined(seq![first], "_"@) == first);
        assert(text::joined(rest, "_"@) == rest[0]);
    } else {
        lemma_joined_front(first, rest.drop_last());
        assert(all.drop_last() =~= seq![first] + rest.drop_last());
        assert(text::joined(all, "_"@) =~= first + "_"@ + text::joined(rest, "_"@));
    }
}

/// A slug is in lower case.
proof fn lemma_slug_is_lower(s: Seq<char>)
    requires
        is_slug(s),
    ensures
        text::ascii_lowered(s) == s,
{
    assert forall|i: int| 0 <= i < s.len() implies text::ascii_lowered(s)[i] == s[i] by {
        assert(is_plain(s[i]) || s[i] == '_');
    }
    assert(text::ascii_lowered(s) =~= s);
}

/// A run ends where the text does, or before a character that it cannot hold.
proof fn lemma_run_stops(s: Seq<char>)
    ensures
        run_end(s) <= s.len(),
        run_end(s) < s.len() ==> !is_plain(s[run_end(s) as int]),
    decreases s.len(),
{
    if s.len() > 0 && is_plain(s[0]) {
        lemma_run_stops(s.skip(1));
    }
}

proof fn lemma_runs_make_up_slug(s: Seq<char>)
    requires
        is_slug(s),
    ensures
        text::joined(runs_of(s), "_"@) == s,
    decreases s.len(),
{
    reveal_strlit("_");
    if s.len() > 0 {
        assert(is_plain(s[0]) || s[0] == '_');
        let e = run_end(s) as int;
        lemma_run_end_bound(s);
        lemma_run_stops(s);
        let first = s.take(e);
        if e == s.len() {
            assert(first =~= s);
            assert(s.skip(e) =~= Seq::empty());
            assert(runs_of(s.skip(e)) =~= Seq::empty());
            assert(runs_of(s) =~= seq![s]);
            assert(text::joined(seq![s], "_"@) == s);
        } else {
            assert(s[e] == '_');
            assert(e < s.len() - 1);
            let rest = s.skip(e + 1);
            assert(s.skip(e).skip(1) =~= rest);
            assert(s.skip(e)[0] == '_');
            assert(runs_of(s.skip(e)) == runs_of(rest));
            assert forall|i: int| 0 <= i < rest.len() implies is_plain(#[trigger] rest[i])
                || rest[i] == '_' by {
                assert(rest[i] == s[e + 1 + i]);
            }
            assert(s[e + 1] != '_' || s[e] != '_');
            assert(rest[0] == s[e + 1]);
            assert(rest.last() == s.last());
            assert forall|i: int| 0 < i < rest.len() && #[trigger] rest[i] == '_' implies rest[i
                - 1] != '_' by {
                assert(s[e + 1 + i] == '_');
                assert(rest[i - 1] == s[e + 1 + i - 1]);
            }
            lemma_runs_make_up_slug(rest);
            lemma_runs(rest);
            assert(is_plain(rest[0]));
            lemma_joined_front(first, runs_of(rest));
            assert(s =~= first + "_"@ + rest);
        }
    }
}

/// A slug is its own slug.
pub proof fn a_slug_is_its_own_slug(s: Seq<char>)
    requires
        is_slug(s),
    ensures
        slug_text(s) == s,
{
    lemma_plain_spelling(s);
    lemma_runs_make_up_slug(s);
}

/// Lower-case ASCII letters, digits and underscores are spelled as they are.
proof fn lemma_plain_spelling(s: Seq<char>)
    requires
        forall|i: int| 0 <= i < s.len() ==> is_plain(#[trigger] s[i]) || s[i] == '_',
    ensures
        spelled_out(s) == s,
    decreases s.len(),
{
    if s.len() > 0 {
        let front = s.drop_last();
        assert forall|i: int| 0 <= i < front.len() implies is_plain(#[trigger] front[i])
            || front[i] == '_' by {
            assert(front[i] == s[i]);
        }
        lemma_plain_spelling(front);
        assert(is_plain(s[s.len() - 1]) || s[s.len() - 1] == '_');
        assert(spelled(s.last()) =~= seq![s.last()]);
        assert(spelled_out(s) =~= s);
    } else {
        assert(spelled_out(s) =~= s);
    }
}

proof fn lemma_spelled_apart(a: Seq<char>, b: Seq<char>)
    ensures
        spelled_out(a + b) == spelled_out(a) + spelled_out(b),
    decreases b.len(),
{
    if b.len() > 0 {
        lemma_spelled_apart(a, b.drop_last());
        assert((a + b).drop_last() =~= a + b.drop_last());
        assert((a + b).last() == b.last());
        assert(spelled_out(a + b) =~= spelled_out(a) + spelled_out(b));
    } else {
        assert(a + b =~= a);
        assert(spelled_out(a) + spelled_out(b) =~= spelled_out(a));
    }
}

proof fn lemma_run_end_is(s: Seq<char>, e: int)
    requires
        0 <= e <= s.len(),
        e < s.len() ==> !is_plain(s[e]),
        forall|i: int| 0 <= i < e ==> is_plain(#[trigger] s[i]),
    ensures
        run_end(s) == e,
    decreases s.len(),
{
    if e > 0 {
        assert(is_plain(s[0]));
        let rest = s.skip(1);
        assert forall|i: int| 0 <= i < e - 1 implies is_plain(#[trigger] rest[i]) by {
            assert(rest[i] == s[i + 1]);
        }
        lemma_run_end_is(rest, e - 1);
    }
}

proof fn lemma_runs_apart(a: Seq<char>, b: Seq<char>)
    ensures
        runs_of(a + seq!['_'] + b) == runs_of(a) + runs_of(b),
    decreases a.len(),
{
    let s = a + seq!['_'] + b;
    assert(!is_plain('_'));
    if a.len() == 0 {
        assert(s.skip(1) =~= b);
        assert(runs_of(a) + runs_of(b) =~= runs_of(b));
    } else if !is_plain(a[0]) {
        assert(s.skip(1) =~= a.skip(1) + seq!['_'] + b);
        lemma_runs_apart(a.skip(1), b);
    } else {
        lemma_run_end_bound(a);
        lemma_run_stops(a);
        let e = run_end(a) as int;
        assert forall|i: int| 0 <= i < e implies is_plain(#[trigger] s[i]) by {
            assert(a[i] == s[i]);
        }
        lemma_run_end_is(s, e);
        assert(s.take(e) =~= a.take(e));
        assert(s.skip(e) =~= a.skip(e) + seq!['_'] + b);
        lemma_runs_apart(a.skip(e), b);
        assert(runs_of(s) =~= runs_of(a) + runs_of(b));
    }
}

/// What slugs do not tell of parts a text: its slug is that of what stands before and that
/// of what stands behind, with one underscore between them where neither is empty.
pub proof fn slugs_part_at_other_characters(a: Seq<char>, c: char, b: Seq<char>)
    requires
        !is_slug_char(c),
    ensures
        slug_text(a + seq![c] + b) == if slug_text(a).len() == 0 {
            slug_text(b)
        } else if slug_text(b).len() == 0 {
            slug_text(a)
        } else {
            slug_text(a) + "_"@ + slug_text(b)
        },
{
    let x = spelled_out(a);
    let y = spelled_out(b);
    lemma_spelled(c);
    lemma_spelled_apart(a + seq![c], b);
    lemma_spelled_apart(a, seq![c]);
    reveal_with_fuel(spelled_out, 2);
    assert(seq![c].drop_last() =~= Seq::empty());
    assert(spelled_out(seq![c]) =~= seq!['_']);
    assert(spelled_out(a + seq![c] + b) =~= x + seq!['_'] + y);
    lemma_runs_apart(x, y);
    lemma_runs(x);
    lemma_runs(y);
    lemma_joined_is_slug(runs_of(x));
    lemma_joined_is_slug(runs_of(y));
    if runs_of(x).len() == 0 {
        assert(runs_of(x) + runs_of(y) =~= runs_of(y));
    } else if runs_of(y).len() == 0 {
        assert(runs_of(x) + runs_of(y) =~= runs_of(x));
    } else {
        text::joining_is_piecewise(runs_of(x), runs_of(y), "_"@);
    }
}

/// Labels that differ in letter case only have the same slug.
pub proof fn slugs_ignore_letter_case(a: Seq<char>, b: Seq<char>)
    requires
        text::lowercase_of(a) == text::lowercase_of(b),
    ensures
        slug_of(a) == slug_of(b),
{
}

/// Whether a phrase stands at two places.
pub open spec fn occurs_twice(phrases: Seq<Seq<char>>, phrase: Seq<char>) -> bool {
    exists|i: int, j: int|
        0 <= i < j < phrases.len() && #[trigger] phrases[i] == phrase && #[trigger] phrases[j]
            == phrase
}

/// The repeated phrases are those that stand at two places, each listed once.
pub proof fn concepts_occur_twice(phrases: Seq<Seq<char>>, phrase: Seq<char>)
    ensures
        repeated(phrases, phrases.len() as int).contains(phrase) <==> occurs_twice(phrases, phrase),
        repeated(phrases, phrases.len() as int).no_duplicates(),
{
    let n = phrases.len() as int;
    lemma_repeated(phrases, n);
    let all = repeated(phrases, n);
    if all.contains(phrase) {
        let k = choose|k: int| 0 <= k < all.len() && all[k] == phrase;
        assert(is_first_of_several(phrases, n, all[k]));
        let i = choose|i: int|
            0 <= i < n && #[trigger] phrases[i] == all[k] && first_of_several(phrases, i);
        let j = choose|j: int| i < j < phrases.len() && #[trigger] phrases[j] == phrases[i];
        assert(phrases[i] == phrase && phrases[j] == phrase);
    }
    if occurs_twice(phrases, phrase) {
        let (i, j) = choose|i: int, j: int|
            0 <= i < j < phrases.len() && #[trigger] phrases[i] == phrase && #[trigger] phrases[j]
                == phrase;
        let f = lemma_first_place(phrases, phrase, i);
        assert(f < j);
        assert(phrases[j] == phrases[f]);
        assert(first_of_several(phrases, f));
    }
}

/// The first place of a phrase.
proof fn lemma_first_place(phrases: Seq<Seq<char>>, phrase: Seq<char>, i: int) -> (f: int)
    requires
        0 <= i < phrases.len(),
        phrases[i] == phrase,
    ensures
        0 <= f <= i,
        phrases[f] == phrase,
        forall|j: int| 0 <= j < f ==> #[trigger] phrases[j] != phrase,
    decreases i,
{
    if exists|j: int| 0 <= j < i && #[trigger] phrases[j] == phrase {
        let j = choose|j: int| 0 <= j < i && #[trigger] phrases[j] == phrase;
        lemma_first_place(phrases, phrase, j)
    } else {
        i
    }
}

/// Whether a phrase is, among the first `n`, the first of several equal ones.
spec fn is_first_of_several(phrases: Seq<Seq<char>>, n: int, phrase: Seq<char>) -> bool {
    exists|i: int| 0 <= i < n && #[trigger] phrases[i] == phrase && first_of_several(phrases, i)
}

/// The repeated phrases are the first ones of several.
proof fn lemma_repeated(phrases: Seq<Seq<char>>, n: int)
    requires
        0 <= n <= phrases.len(),
    ensures
        repeated(phrases, n).no_duplicates(),
        forall|k: int|
            0 <= k < repeated(phrases, n).len() ==> is_first_of_several(
                phrases,
                n,
                #[trigger] repeated(phrases, n)[k],
            ),
        forall|i: int|
            0 <= i < n && first_of_several(phrases, i) ==> repeated(phrases, n).contains(
                #[trigger] phrases[i],
            ),
    decreases n,
{
    if n > 0 {
        lemma_repeated(phrases, n - 1);
        let before = repeated(phrases, n - 1);
        let now = repeated(phrases, n);
        assert forall|k: int| 0 <= k < now.len() implies is_first_of_several(
            phrases,
            n,
            #[trigger] now[k],
        ) by {
            if k < before.len() {
                assert(now[k] == before[k]);
                assert(is_first_of_several(phrases, n - 1, before[k]));
                let i = choose|i: int|
                    0 <= i < n - 1 && #[trigger] phrases[i] == before[k] && first_of_several(
                        phrases,
                        i,
                    );
                assert(phrases[i] == now[k]);
            } else {
                assert(phrases[n - 1] == now[k]);
            }
        }
        assert forall|i: int| 0 <= i < n && first_of_several(phrases, i) implies now.contains(
            #[trigger] phrases[i],
        ) by {
            if i < n - 1 {
                assert(before.contains(phrases[i]));
                let k = choose|k: int| 0 <= k < before.len() && before[k] == phrases[i];
                assert(now[k] == phrases[i]);
            } else {
                assert(now[now.len() - 1] == phrases[i]);
            }
        }
        if first_of_several(phrases, n - 1) {
            assert forall|k: int| 0 <= k < before.len() implies before[k] != phrases[n - 1] by {
                assert(is_first_of_several(phrases, n - 1, before[k]));
                let i = choose|i: int|
                    0 <= i < n - 1 && #[trigger] phrases[i] == before[k] && first_of_several(
                        phrases,
                        i,
                    );
                assert(phrases[i] != phrases[n - 1]);
            }
        }
    }
}

/// No phrase that may be a concept holds a stopword.
pub proof fn phrases_hold_no_stopword(phrases: Seq<Seq<char>>)
    ensures
        forall|i: int|
            0 <= i < kept_phrases(phrases).len() ==> !has_stopword(
                #[trigger] kept_phrases(phrases)[i],
            ),
    decreases phrases.len(),
{
    if phrases.len() > 0 {
        phrases_hold_no_stopword(phrases.drop_last());
        let before = kept_phrases(phrases.drop_last());
        let now = kept_phrases(phrases);
        assert forall|i: int| 0 <= i < now.len() implies !has_stopword(#[trigger] now[i]) by {
            if i < before.len() {
                assert(now[i] == before[i]);
            }
        }
    }
}

/// The fences of two lists of lines, the first of which leaves none open.
proof fn lemma_fences_join(a: Seq<Seq<char>>, b: Seq<Seq<char>>, n: int)
    requires
        !chunk::in_fence_at(a, a.len() as int),
        0 <= n <= b.len(),
    ensures
        forall|i: int|
            0 <= i <= a.len() ==> #[trigger] chunk::in_fence_at(a + b, i) == chunk::in_fence_at(a, i),
        chunk::in_fence_at(a + b, a.len() + n) == chunk::in_fence_at(b, n),
        unfenced(a + b, a.len() + n) == unfenced(a, a.len() as int) + unfenced(b, n),
    decreases n,
{
    if n > 0 {
        lemma_fences_join(a, b, n - 1);
        assert((a + b)[a.len() + n - 1] == b[n - 1]);
        assert(unfenced(a + b, a.len() + n) =~= unfenced(a, a.len() as int) + unfenced(b, n));
    } else {
        lemma_fences_prefix(a, b, a.len() as int);
        assert forall|i: int| 0 <= i <= a.len() implies #[trigger] chunk::in_fence_at(a + b, i)
            == chunk::in_fence_at(a, i) by {
            lemma_fences_prefix(a, b, i);
        }
        assert(unfenced(a, a.len() as int) + unfenced(b, 0) =~= unfenced(a, a.len() as int));
    }
}

proof fn lemma_fences_prefix(a: Seq<Seq<char>>, b: Seq<Seq<char>>, n: int)
    requires
        0 <= n <= a.len(),
    ensures
        chunk::in_fence_at(a + b, n) == chunk::in_fence_at(a, n),
        unfenced(a + b, n) == unfenced(a, n),
    decreases n,
{
    if n > 0 {
        lemma_fences_prefix(a, b, n - 1);
        assert((a + b)[n - 1] == a[n - 1]);
    }
}

/// The tags of two lists of lines are those of the first and then those of the
/// second.
proof fn lemma_tags_join(a: Seq<Seq<char>>, b: Seq<Seq<char>>, n: int)
    requires
        0 <= n <= b.len(),
    ensures
        tags_upto(a + b, a.len() + n) == tags_upto(a, a.len() as int) + tags_upto(b, n),
    decreases n,
{
    if n > 0 {
        lemma_tags_join(a, b, n - 1);
        assert((a + b)[a.len() + n - 1] == b[n - 1]);
        assert(tags_upto(a + b, a.len() + n) =~= tags_upto(a, a.len() as int) + tags_upto(b, n));
    } else {
        lemma_tags_prefix(a, b, a.len() as int);
        assert(tags_upto(a, a.len() as int) + tags_upto(b, 0) =~= tags_upto(a, a.len() as int));
    }
}

pub proof fn lemma_tags_prefix(a: Seq<Seq<char>>, b: Seq<Seq<char>>, n: int)
    requires
        0 <= n <= a.len(),
    ensures
        tags_upto(a + b, n) == tags_upto(a, n),
    decreases n,
{
    if n > 0 {
        lemma_tags_prefix(a, b, n - 1);
        assert((a + b)[n - 1] == a[n - 1]);
    }
}

/// The tags of some lines, those inside code fences left out.
spec fn tags_in(lines: Seq<Seq<char>>) -> Seq<Seq<char>> {
    tags_upto(
        unfenced(lines, lines.len() as int),
        unfenced(lines, lines.len() as int).len() as int,
    )
}

proof fn lemma_tags_in_join(a: Seq<Seq<char>>, b: Seq<Seq<char>>)
    requires
        !chunk::in_fence_at(a, a.len() as int),
    ensures
        tags_in(a + b) == tags_in(a) + tags_in(b),
        chunk::in_fence_at(a + b, (a + b).len() as int) == chunk::in_fence_at(b, b.len() as int),
{
    lemma_fences_join(a, b, b.len() as int);
    let u = unfenced(a, a.len() as int);
    let v = unfenced(b, b.len() as int);
    lemma_tags_join(u, v, v.len() as int);
}

/// The tags of lines that differ in carriage returns at their ends alone.
proof fn lemma_tags_same(a: Seq<Seq<char>>, b: Seq<Seq<char>>, n: int)
    requires
        0 <= n <= a.len(),
        a.len() == b.len(),
        forall|i: int|
            0 <= i < a.len() ==> chunk::is_fence(#[trigger] a[i]) == chunk::is_fence(b[i])
                && text::without_crs(a[i]) == text::without_crs(b[i]),
    ensures
        chunk::in_fence_at(a, n) == chunk::in_fence_at(b, n),
        tags_upto(unfenced(a, n), unfenced(a, n).len() as int) == tags_upto(
            unfenced(b, n),
            unfenced(b, n).len() as int,
        ),
    decreases n,
{
    if n > 0 {
        lemma_tags_same(a, b, n - 1);
        assert(chunk::is_fence(a[n - 1]) == chunk::is_fence(b[n - 1]));
        let u = unfenced(a, n - 1);
        let v = unfenced(b, n - 1);
        if !chunk::in_fence_at(a, n) {
            assert(unfenced(a, n) =~= u + seq![a[n - 1]]);
            assert(unfenced(b, n) =~= v + seq![b[n - 1]]);
            lemma_tags_prefix(u, seq![a[n - 1]], u.len() as int);
            lemma_tags_prefix(v, seq![b[n - 1]], v.len() as int);
            assert((u + seq![a[n - 1]])[u.len() as int] == a[n - 1]);
            assert((v + seq![b[n - 1]])[v.len() as int] == b[n - 1]);
        }
    }
}

/// A carriage return at the end of a line makes it neither a fence nor none.
proof fn lemma_fence_cr(line: Seq<char>)
    ensures
        chunk::is_fence(text::without_cr(line)) == chunk::is_fence(line),
        text::without_crs(text::without_cr(line)) == text::without_crs(line),
{
    reveal_strlit("```");
    let bare = text::without_cr(line);
    if bare != line {
        if line.len() >= 4 {
            assert(bare.subrange(0, 3) =~= line.subrange(0, 3));
        } else if text::begins_with(line, "```"@) {
            assert(line.subrange(0, 3)[2] == "```"@[2]);
        }
    }
}

/// The tags of two texts joined by a line feed are those of the first and then
/// those of the second, where the first leaves no code fence open.
pub proof fn tags_of_joined_texts(a: Seq<char>, b: Seq<char>)
    requires
        !chunk::in_fence_at(text::lines_of(a), text::lines_of(a).len() as int),
    ensures
        tags_of(a + seq!['\n'] + b) == tags_of(a) + tags_of(b),
{
    let first = a.push('\n');
    let lines = text::lines_of(a);
    let now = text::lines_of(first);
    assert(a + seq!['\n'] + b =~= first + b);
    text::lemma_lines_join(first, b);
    if a.len() > 0 && a.last() == '\r' {
        text::lemma_lines_feed_cr(a);
        lemma_fence_cr(lines.last());
        assert forall|i: int| 0 <= i < lines.len() implies chunk::is_fence(#[trigger] lines[i])
            == chunk::is_fence(now[i]) && text::without_crs(lines[i]) == text::without_crs(
            now[i],
        ) by {
            if i < lines.len() - 1 {
                assert(now[i] == lines[i]);
            } else {
                assert(now[i] == text::without_cr(lines.last()));
            }
        }
        lemma_tags_same(lines, now, lines.len() as int);
    } else {
        text::lemma_lines_feed(a);
        if now != lines {
            lemma_blank_line_adds_no_tag(lines);
            assert(now =~= lines + seq![Seq::<char>::empty()]);
        }
    }
    assert(tags_in(now) == tags_in(lines));
    assert(!chunk::in_fence_at(now, now.len() as int));
    lemma_tags_in_join(now, text::lines_of(b));
}

/// An empty line outside code fences holds no tag.
proof fn lemma_blank_line_adds_no_tag(lines: Seq<Seq<char>>)
    requires
        !chunk::in_fence_at(lines, lines.len() as int),
    ensures
        ({
            let more = lines + seq![Seq::<char>::empty()];
            tags_in(more) == tags_in(lines) && !chunk::in_fence_at(more, more.len() as int)
        }),
{
    let blank = seq![Seq::<char>::empty()];
    lemma_tags_in_join(lines, blank);
    reveal_strlit("```");
    assert(!chunk::is_fence(blank[0]));
    reveal_with_fuel(chunk::in_fence_at, 2);
    assert(!chunk::in_fence_at(blank, 1));
    reveal_with_fuel(unfenced, 2);
    assert(unfenced(blank, 1) =~= blank);
    reveal_with_fuel(tags_upto, 2);
    assert(matches_in(HASHTAG_PATTERN@, blank[0]) =~= Seq::empty());
    assert(tags_in(blank) =~= Seq::empty());
    assert(tags_in(lines) + tags_in(blank) =~= tags_in(lines));
}

// ---------------------------------------------------------------------------
// The graph of a text
// ---------------------------------------------------------------------------

/// Whether a node stands for something named in a text, and not for a document.
pub open spec fn is_topic(n: NodeView, kind: NodeKind, id: Seq<char>, label: Seq<char>) -> bool {
    &&& n.id == id
    &&& n.label == label
    &&& n.kind == kind
    &&& n.doc_id is None
    &&& n.frequency == 1
}

/// Whether an edge leads from a document to something named in its text.
pub open spec fn is_mention(
    e: EdgeView,
    doc_id: Seq<char>,
    target: Seq<char>,
    relation: Seq<char>,
    weight: u32,
) -> bool {
    &&& e.source == "doc_"@ + doc_id
    &&& e.target == target
    &&& e.relation == relation
    &&& e.weight == weight
    &&& e.doc_id == doc_id
}

/// Whether a node and an edge are those of a link: the node has the target as its label.
pub open spec fn is_link_pair(
    doc_id: Seq<char>,
    link: (Seq<char>, Option<Seq<char>>),
    n: NodeView,
    e: EdgeView,
) -> bool {
    let id = "wikilink_"@ + slug_of(link.0);
    &&& is_topic(n, NodeKind::WikiLink, id, link.0)
    &&& is_mention(e, doc_id, id, "links_to"@, 1000)
    &&& e.confidence == Confidence::Extracted
    &&& e.context == link.1
}

/// Whether a node and an edge are those of a tag, in lower case.
pub open spec fn is_tag_pair(doc_id: Seq<char>, tag: Seq<char>, n: NodeView, e: EdgeView) -> bool {
    let id = "tag_"@ + slug_of(text::lowercase_of(tag));
    &&& n.id == id
    &&& n.kind == NodeKind::Tag
    &&& is_mention(e, doc_id, id, "tagged"@, 800)
    &&& e.confidence == Confidence::Extracted
    &&& e.context is None
}

/// Whether a node and an edge are those of a concept.
pub open spec fn is_concept_pair(
    doc_id: Seq<char>,
    concept: Seq<char>,
    n: NodeView,
    e: EdgeView,
) -> bool {
    let id = "concept_"@ + slug_of(concept);
    &&& n.id == id
    &&& n.kind == NodeKind::Concept
    &&& is_mention(e, doc_id, id, "contains"@, 600)
    &&& e.confidence == Confidence::Inferred
    &&& e.context is None
}

/// Whether a concept is named in the graph: it is not the title, but for letter case.
pub open spec fn is_beside(concepts: Seq<Seq<char>>, title: Seq<char>, concept: Seq<char>) -> bool {
    concepts.contains(concept) && text::lowercase_of(concept) != text::lowercase_of(title)
}

/// Whether a node stands for one of the links, tags and concepts.
pub open spec fn is_named(
    title: Seq<char>,
    links: Seq<(Seq<char>, Option<Seq<char>>)>,
    tags: Seq<Seq<char>>,
    concepts: Seq<Seq<char>>,
    n: NodeView,
) -> bool {
    ||| exists|i: int|
        0 <= i < links.len() && is_topic(
            n,
            NodeKind::WikiLink,
            "wikilink_"@ + slug_of((#[trigger] links[i]).0),
            links[i].0,
        )
    ||| exists|i: int|
        0 <= i < tags.len() && is_topic(
            n,
            NodeKind::Tag,
            "tag_"@ + slug_of(text::lowercase_of(#[trigger] tags[i])),
            "#"@ + text::lowercase_of(tags[i]),
        )
    ||| exists|c: Seq<char>| #[trigger]
        is_beside(concepts, title, c) && is_topic(
            n,
            NodeKind::Concept,
            "concept_"@ + slug_of(c),
            c,
        )
}

/// Whether nodes and edges are the graph of a document: its own node, and a node and an
/// edge for every link, every tag and every concept but the title, and no others.
pub open spec fn is_graph_of(
    doc_id: Seq<char>,
    title: Seq<char>,
    links: Seq<(Seq<char>, Option<Seq<char>>)>,
    tags: Seq<Seq<char>>,
    concepts: Seq<Seq<char>>,
    nodes: Seq<NodeView>,
    edges: Seq<EdgeView>,
) -> bool {
    &&& nodes.len() > 0
    &&& nodes[0].id == "doc_"@ + doc_id && nodes[0].label == title && nodes[0].kind
        == NodeKind::Document && nodes[0].doc_id == Some(doc_id) && nodes[0].frequency == 1
    &&& forall|k: int|
        0 < k < nodes.len() ==> is_named(title, links, tags, concepts, #[trigger] nodes[k])
    &&& edges.len() >= links.len() + tags.len()
    &&& forall|i: int|
        0 <= i < links.len() ==> names_link(doc_id, #[trigger] links[i], nodes, edges[i])
    &&& forall|i: int|
        0 <= i < tags.len() ==> names_tag(
            doc_id,
            #[trigger] tags[i],
            nodes,
            edges[links.len() + i],
        )
    &&& forall|c: Seq<char>| #[trigger]
        is_beside(concepts, title, c) ==> leads_to_concept(
            doc_id,
            c,
            nodes,
            edges.skip((links.len() + tags.len()) as int),
        )
    &&& forall|j: int|
        links.len() + tags.len() <= j < edges.len() ==> comes_from_concept(
            doc_id,
            title,
            concepts,
            nodes,
            #[trigger] edges[j],
        )
}

/// Whether one of the edges leads to a concept.
pub open spec fn leads_to_concept(
    doc_id: Seq<char>,
    concept: Seq<char>,
    nodes: Seq<NodeView>,
    edges: Seq<EdgeView>,
) -> bool {
    exists|j: int| 0 <= j < edges.len() && names_concept(doc_id, concept, nodes, #[trigger] edges[j])
}

/// Whether an edge leads to one of the concepts but the title.
pub open spec fn comes_from_concept(
    doc_id: Seq<char>,
    title: Seq<char>,
    concepts: Seq<Seq<char>>,
    nodes: Seq<NodeView>,
    e: EdgeView,
) -> bool {
    exists|c: Seq<char>| #[trigger]
        is_beside(concepts, title, c) && names_concept(doc_id, c, nodes, e)
}

/// Whether one of the nodes and the edge are those of a link.
pub open spec fn names_link(
    doc_id: Seq<char>,
    link: (Seq<char>, Option<Seq<char>>),
    nodes: Seq<NodeView>,
    e: EdgeView,
) -> bool {
    exists|k: int| 0 < k < nodes.len() && is_link_pair(doc_id, link, #[trigger] nodes[k], e)
}

/// Whether one of the nodes and the edge are those of a tag.
pub open spec fn names_tag(
    doc_id: Seq<char>,
    tag: Seq<char>,
    nodes: Seq<NodeView>,
    e: EdgeView,
) -> bool {
    exists|k: int| 0 < k < nodes.len() && is_tag_pair(doc_id, tag, #[trigger] nodes[k], e)
}

/// Whether one of the nodes and the edge are those of a concept.
pub open spec fn names_concept(
    doc_id: Seq<char>,
    concept: Seq<char>,
    nodes: Seq<NodeView>,
    e: EdgeView,
) -> bool {
    exists|k: int| 0 < k < nodes.len() && is_concept_pair(doc_id, concept, #[trigger] nodes[k], e)
}

/// The concepts beside the title are those that differ from it.
proof fn lemma_beside(concepts: Seq<Seq<char>>, title: Seq<char>)
    ensures
        forall|c: Seq<char>| #[trigger]
            beside_title(concepts, title).contains(c) <==> is_beside(concepts, title, c),
    decreases concepts.len(),
{
    if concepts.len() > 0 {
        let front = concepts.drop_last();
        lemma_beside(front, title);
        let before = beside_title(front, title);
        let now = beside_title(concepts, title);
        assert forall|c: Seq<char>| #[trigger] now.contains(c) <==> is_beside(
            concepts,
            title,
            c,
        ) by {
            assert(before.contains(c) <==> is_beside(front, title, c));
            if now.contains(c) {
                let k = choose|k: int| 0 <= k < now.len() && now[k] == c;
                if k < before.len() {
                    assert(before[k] == c);
                    let i = choose|i: int| 0 <= i < front.len() && front[i] == c;
                    assert(concepts[i] == c);
                } else {
                    assert(concepts[concepts.len() - 1] == c);
                }
            }
            if is_beside(concepts, title, c) {
                let i = choose|i: int| 0 <= i < concepts.len() && concepts[i] == c;
                if i < front.len() {
                    assert(front[i] == c);
                    let k = choose|k: int| 0 <= k < before.len() && before[k] == c;
                    assert(now[k] == c);
                } else {
                    assert(now[now.len() - 1] == c);
                }
            }
        }
    }
}

/// Each of the distinct nodes is one of the nodes.
proof fn lemma_distinct_part(nodes: Seq<NodeView>)
    ensures
        forall|k: int|
            0 <= k < distinct(nodes).len() ==> nodes.contains(#[trigger] distinct(nodes)[k]),
    decreases nodes.len(),
{
    if nodes.len() > 0 {
        let front = nodes.drop_last();
        lemma_distinct_part(front);
        let before = distinct(front);
        let now = distinct(nodes);
        assert forall|k: int| 0 <= k < now.len() implies nodes.contains(#[trigger] now[k]) by {
            if k < before.len() {
                assert(front.contains(before[k]));
                let i = choose|i: int| 0 <= i < front.len() && front[i] == before[k];
                assert(nodes[i] == now[k]);
            } else {
                assert(nodes[nodes.len() - 1] == now[k]);
            }
        }
    }
}

/// The graph of a document holds what its text names: a node and an edge for every
/// link, tag and concept, each with the relation, weight and confidence of its kind.
#[verifier::rlimit(40)]
pub proof fn graphs_hold_what_the_text_names(
    doc_id: Seq<char>,
    title: Seq<char>,
    links: Seq<(Seq<char>, Option<Seq<char>>)>,
    tags: Seq<Seq<char>>,
    concepts: Seq<Seq<char>>,
)
    ensures
        is_graph_of(
            doc_id,
            title,
            links,
            tags,
            concepts,
            nodes_for(doc_id, title, links, tags, concepts),
            edges_for(doc_id, title, links, tags, concepts),
        ),
{
    let nodes = nodes_for(doc_id, title, links, tags, concepts);
    let edges = edges_for(doc_id, title, links, tags, concepts);
    let kept = beside_title(concepts, title);
    let from = links.len() + tags.len() as int;
    lemma_beside(concepts, title);
    assert(nodes[0] == doc_node(doc_id, title));
    assert forall|k: int| 0 < k < nodes.len() implies is_named(
        title,
        links,
        tags,
        concepts,
        #[trigger] nodes[k],
    ) by {
        lemma_node_named(doc_id, title, links, tags, concepts, k);
    }
    assert forall|i: int| 0 <= i < links.len() implies names_link(
        doc_id,
        #[trigger] links[i],
        nodes,
        edges[i],
    ) by {
        assert(nodes[i + 1] == link_node(links[i].0));
        assert(edges[i] == link_edge(doc_id, links[i]));
    }
    assert forall|i: int| 0 <= i < tags.len() implies names_tag(
        doc_id,
        #[trigger] tags[i],
        nodes,
        edges[links.len() + i],
    ) by {
        lemma_tag_pair(doc_id, title, links, tags, concepts, i);
    }
    let rest = edges.skip(from);
    assert forall|concept: Seq<char>| #[trigger]
        is_beside(concepts, title, concept) implies leads_to_concept(
        doc_id,
        concept,
        nodes,
        rest,
    ) by {
        assert(kept.contains(concept));
        let t = choose|t: int| 0 <= t < kept.len() && kept[t] == concept;
        lemma_concept_pair(doc_id, title, links, tags, concepts, t);
        assert(rest[t] == edges[from + t]);
    }
    assert forall|j: int| from <= j < edges.len() implies comes_from_concept(
        doc_id,
        title,
        concepts,
        nodes,
        #[trigger] edges[j],
    ) by {
        let t = j - from;
        assert(kept.contains(kept[t]));
        assert(is_beside(concepts, title, kept[t]));
        lemma_concept_pair(doc_id, title, links, tags, concepts, t);
    }
}

/// What a node stands for.
proof fn lemma_node_named(
    doc_id: Seq<char>,
    title: Seq<char>,
    links: Seq<(Seq<char>, Option<Seq<char>>)>,
    tags: Seq<Seq<char>>,
    concepts: Seq<Seq<char>>,
    k: int,
)
    requires
        0 < k < nodes_for(doc_id, title, links, tags, concepts).len(),
    ensures
        is_named(
            title,
            links,
            tags,
            concepts,
            nodes_for(doc_id, title, links, tags, concepts)[k],
        ),
{
    let nodes = nodes_for(doc_id, title, links, tags, concepts);
    let kept = beside_title(concepts, title);
    let a = seq![doc_node(doc_id, title)] + link_nodes(links);
    let b = distinct(tag_nodes(tags));
    let c = distinct(concept_nodes(kept));
    assert(nodes == a + b + c);
    lemma_beside(concepts, title);
    lemma_distinct_part(tag_nodes(tags));
    lemma_distinct_part(concept_nodes(kept));
    if k < a.len() {
        assert(nodes[k] == link_node(links[k - 1].0));
    } else if k < a.len() + b.len() {
        let m = k - a.len();
        assert(nodes[k] == b[m]);
        assert(tag_nodes(tags).contains(b[m]));
        let i = choose|i: int| 0 <= i < tag_nodes(tags).len() && tag_nodes(tags)[i] == b[m];
        assert(nodes[k] == tag_node(tags[i]));
    } else {
        let m = k - a.len() - b.len();
        assert(nodes[k] == c[m]);
        assert(concept_nodes(kept).contains(c[m]));
        let i = choose|i: int| 0 <= i < concept_nodes(kept).len() && concept_nodes(kept)[i] == c[m];
        assert(kept.contains(kept[i]));
        assert(is_beside(concepts, title, kept[i]));
        assert(nodes[k] == concept_node(kept[i]));
    }
}

/// The node and the edge of a tag.
proof fn lemma_tag_pair(
    doc_id: Seq<char>,
    title: Seq<char>,
    links: Seq<(Seq<char>, Option<Seq<char>>)>,
    tags: Seq<Seq<char>>,
    concepts: Seq<Seq<char>>,
    i: int,
)
    requires
        0 <= i < tags.len(),
    ensures
        names_tag(
            doc_id,
            tags[i],
            nodes_for(doc_id, title, links, tags, concepts),
            edges_for(doc_id, title, links, tags, concepts)[links.len() + i],
        ),
{
    let nodes = nodes_for(doc_id, title, links, tags, concepts);
    let edges = edges_for(doc_id, title, links, tags, concepts);
    let a = seq![doc_node(doc_id, title)] + link_nodes(links);
    let b = distinct(tag_nodes(tags));
    let id = tag_node(tags[i]).id;
    lemma_distinct_part(tag_nodes(tags));
    distinct_nodes_are_distinct(tag_nodes(tags));
    assert(edges[links.len() + i] == tag_edge(doc_id, tags[i]));
    assert(tag_nodes(tags)[i].id == id);
    assert(has_id(tag_nodes(tags), id));
    assert(has_id(b, id));
    let m = choose|m: int| 0 <= m < b.len() && (#[trigger] b[m]).id == id;
    assert(tag_nodes(tags).contains(b[m]));
    assert(nodes[a.len() + m] == b[m]);
}

/// The node and the edge of a concept.
proof fn lemma_concept_pair(
    doc_id: Seq<char>,
    title: Seq<char>,
    links: Seq<(Seq<char>, Option<Seq<char>>)>,
    tags: Seq<Seq<char>>,
    concepts: Seq<Seq<char>>,
    t: int,
)
    requires
        0 <= t < beside_title(concepts, title).len(),
    ensures
        ({
            let nodes = nodes_for(doc_id, title, links, tags, concepts);
            let edges = edges_for(doc_id, title, links, tags, concepts);
            let j = links.len() + tags.len() + t;
            &&& j < edges.len()
            &&& names_concept(doc_id, beside_title(concepts, title)[t], nodes, edges[j])
        }),
{
    let nodes = nodes_for(doc_id, title, links, tags, concepts);
    let edges = edges_for(doc_id, title, links, tags, concepts);
    let kept = beside_title(concepts, title);
    let a = seq![doc_node(doc_id, title)] + link_nodes(links);
    let b = distinct(tag_nodes(tags));
    let c = distinct(concept_nodes(kept));
    let id = concept_node(kept[t]).id;
    let j = links.len() + tags.len() + t;
    assert(nodes == a + b + c);
    assert(edges[j] == concept_edge(doc_id, kept[t]));
    distinct_nodes_are_distinct(concept_nodes(kept));
    lemma_distinct_part(concept_nodes(kept));
    assert(concept_nodes(kept)[t].id == id);
    assert(has_id(concept_nodes(kept), id));
    assert(has_id(c, id));
    let m = choose|m: int| 0 <= m < c.len() && (#[trigger] c[m]).id == id;
    assert(concept_nodes(kept).contains(c[m]));
    assert(nodes[a.len() + b.len() + m] == c[m]);
}

} // verus!
