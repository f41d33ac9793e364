//! Division of a document body into overlapping chunks at good line breaks.

use vstd::prelude::*;

use crate::document::{BREAK_WINDOW, CHUNK_TOKENS, OVERLAP_TOKENS};
use crate::table;
use crate::text;

verus! {

/// A piece of a document, the unit of full-text indexing.
#[derive(Debug)]
pub struct Chunk {
    /// doc_id + "_" + chunk_index
    pub id: String,
    pub doc_id: String,
    pub chunk_index: usize,
    /// Document title (indexed in FTS for title-boosted queries)
    pub title: String,
    pub content: String,
}

/// What a chunk holds.
pub struct ChunkView {
    pub id: Seq<char>,
    pub doc_id: Seq<char>,
    pub chunk_index: nat,
    pub title: Seq<char>,
    pub content: Seq<char>,
}

impl View for Chunk {
    type V = ChunkView;

    open spec fn view(&self) -> ChunkView {
        ChunkView {
            id: self.id@,
            doc_id: self.doc_id@,
            chunk_index: self.chunk_index as nat,
            title: self.title@,
            content: self.content@,
        }
    }
}

impl Clone for Chunk {
    fn clone(&self) -> (r: Self)
        ensures
            r == *self,
    {
        Chunk {
            id: self.id.clone(),
            doc_id: self.doc_id.clone(),
            chunk_index: self.chunk_index,
            title: self.title.clone(),
            content: self.content.clone(),
        }
    }
}

/// The contents of a list of chunks.
pub open spec fn chunk_views(v: Seq<Chunk>) -> Seq<ChunkView> {
    table::rows(v)
}

// ---------------------------------------------------------------------------
// Tokens and break scores
// ---------------------------------------------------------------------------

/// The estimated number of tokens: a quarter of the bytes, at least one.
pub open spec fn tokens_of(s: Seq<char>) -> nat {
    if text::utf8_len(s) / 4 > 1 {
        text::utf8_len(s) / 4
    } else {
        1
    }
}

/// Estimates the number of tokens of `s`.
pub fn estimate_tokens(s: &str) -> (r: usize)
    ensures
        r == tokens_of(s@),
        1 <= r <= usize::MAX / 4 + 1,
        text::utf8_len(s@) < 4 ==> r == 1,
        text::utf8_len(s@) >= 4 ==> 4 * r <= text::utf8_len(s@) < 4 * r + 4,
{
    let q: usize = s.as_bytes().len() / 4;
    if q > 1 {
        q
    } else {
        1
    }
}

/// Whether a line opens or closes a code fence.
pub open spec fn is_fence(line: Seq<char>) -> bool {
    text::begins_with(line, "```"@)
}

/// How good a place to cut a line is.
pub open spec fn score_of(line: Seq<char>, in_fence: bool) -> u32 {
    if in_fence {
        if is_fence(line) {
            80
        } else {
            0
        }
    } else if text::begins_with(line, "# "@) {
        100
    } else if text::begins_with(line, "## "@) {
        90
    } else if text::begins_with(line, "### "@) {
        80
    } else if text::begins_with(line, "#### "@) {
        70
    } else if is_fence(line) {
        80
    } else if text::trimmed(line) == "---"@ || text::trimmed(line) == "***"@ {
        60
    } else if text::trimmed(line).len() == 0 {
        20
    } else if text::begins_with(line, "- "@) || text::begins_with(line, "* "@)
        || text::begins_with(line, "+ "@) || (text::utf8_len(line) > 2 && 48 <= line[0] as u32
        <= 57) {
        5
    } else {
        1
    }
}

/// Assigns a break-point score to a line.
/// Higher = better place to cut.  Returns 0 inside code fences (except on the
/// fence marker itself, which scores 80 to allow cutting *at* a fence boundary).
pub fn break_score(line: &str, in_fence: bool) -> (r: u32)
    ensures
        r == score_of(line@, in_fence),
{
    let chars = text::chars_of(line);
    let s = chars.as_slice();
    if in_fence {
        return if text::starts_with(s, "```") {
            80
        } else {
            0
        };
    }
    if text::starts_with(s, "# ") {
        return 100;
    }
    if text::starts_with(s, "## ") {
        return 90;
    }
    if text::starts_with(s, "### ") {
        return 80;
    }
    if text::starts_with(s, "#### ") {
        return 70;
    }
    if text::starts_with(s, "```") {
        return 80;
    }
    let t = text::trim(s);
    let rule = text::chars_of("---");
    let stars = text::chars_of("***");
    if text::same_chars(t, rule.as_slice()) || text::same_chars(t, stars.as_slice()) {
        return 60;
    }
    if t.len() == 0 {
        return 20;
    }
    let numbered = line.as_bytes().len() > 2 && s.len() > 0 && {
        let u: u32 = s[0] as u32;
        48 <= u && u <= 57
    };
    assert(s@.len() == 0 ==> text::utf8_len(s@) == 0);
    if text::starts_with(s, "- ") || text::starts_with(s, "* ") || text::starts_with(s, "+ ")
        || numbered {
        return 5;
    }
    1
}

/// Whether line `i` stands inside a code fence.
pub open spec fn in_fence_at(lines: Seq<Seq<char>>, i: int) -> bool
    decreases i,
{
    if i <= 0 {
        false
    } else {
        in_fence_at(lines, i - 1) != is_fence(lines[i - 1])
    }
}

/// The break score of every line.
pub open spec fn scores_of(lines: Seq<Seq<char>>) -> Seq<u32> {
    Seq::new(lines.len(), |i: int| score_of(lines[i], in_fence_at(lines, i)))
}

/// The estimated tokens of lines `from..to` together.
pub open spec fn tokens_between(lines: Seq<Seq<char>>, from: int, to: int) -> nat
    decreases to - from,
{
    if from >= to {
        0
    } else {
        tokens_between(lines, from, to - 1) + tokens_of(lines[to - 1])
    }
}

// ---------------------------------------------------------------------------
// Cuts
// ---------------------------------------------------------------------------

/// The line with the highest score in `lo..=hi`, the last one of several.
pub open spec fn best_break(scores: Seq<u32>, lo: int, hi: int) -> int
    decreases hi - lo,
{
    if hi <= lo {
        lo
    } else if scores[hi] >= scores[best_break(scores, lo, hi - 1)] {
        hi
    } else {
        best_break(scores, lo, hi - 1)
    }
}

/// The first lines of the chunks found so far, and the tokens since the last cut.
pub struct Cuts {
    pub starts: Seq<int>,
    pub acc: nat,
}

/// The window of lines after one of which the chunk that reached its size at
/// line `i` may be cut.
pub open spec fn window_lo(i: int, prev_cut: int) -> int {
    if i - BREAK_WINDOW > prev_cut + 1 {
        i - BREAK_WINDOW
    } else {
        prev_cut + 1
    }
}

pub open spec fn window_hi(i: int, n: int) -> int {
    if i + BREAK_WINDOW < n - 1 {
        i + BREAK_WINDOW
    } else {
        n - 1
    }
}

/// Where the chunk that reached its size at line `i` would end.
pub open spec fn next_cut(scores: Seq<u32>, i: int, prev_cut: int) -> int {
    let lo = window_lo(i, prev_cut);
    let hi = window_hi(i, scores.len() as int);
    if lo <= hi {
        best_break(scores, lo, hi) + 1
    } else {
        i + 1
    }
}

/// The cuts after the first `i` lines: a cut is made when the tokens since the
/// last cut reach the chunk size, after the best line of the window.
pub open spec fn cuts_after(lines: Seq<Seq<char>>, i: int) -> Cuts
    decreases i,
{
    if i <= 0 {
        Cuts { starts: seq![0], acc: 0 }
    } else {
        let prev = cuts_after(lines, i - 1);
        let acc = prev.acc + tokens_of(lines[i - 1]);
        let next = next_cut(scores_of(lines), i - 1, prev.starts.last());
        if acc >= CHUNK_TOKENS && i < lines.len() && next > prev.starts.last() {
            Cuts { starts: prev.starts.push(next), acc: 0 }
        } else {
            Cuts { starts: prev.starts, acc }
        }
    }
}

/// The first lines of the chunks of a body.
pub open spec fn starts_of(lines: Seq<Seq<char>>) -> Seq<int> {
    cuts_after(lines, lines.len() as int).starts
}

/// The line after the last one of chunk `k`.
pub open spec fn end_of(lines: Seq<Seq<char>>, starts: Seq<int>, k: int) -> int {
    if k + 1 < starts.len() {
        starts[k + 1]
    } else {
        lines.len() as int
    }
}

/// Going backward from line `back`, with `have` tokens already taken, the first
/// line at which the overlap is large enough.
pub open spec fn overlap_from(lines: Seq<Seq<char>>, back: int, have: nat) -> int
    decreases back,
{
    if back > 0 && have < OVERLAP_TOKENS {
        overlap_from(lines, back - 1, have + tokens_of(lines[back - 1]))
    } else {
        back
    }
}

/// The line at which the content of chunk `k` begins: the chunk's first line,
/// moved backward for overlap except for the first chunk.
pub open spec fn content_start(lines: Seq<Seq<char>>, starts: Seq<int>, k: int) -> int {
    if k == 0 {
        starts[k]
    } else {
        overlap_from(lines, starts[k], 0)
    }
}

/// The content of chunk `k`.
pub open spec fn content_of(lines: Seq<Seq<char>>, starts: Seq<int>, k: int) -> Seq<char> {
    text::joined(
        lines.subrange(content_start(lines, starts, k), end_of(lines, starts, k)),
        "\n"@,
    )
}

/// A chunk with the given contents.
pub open spec fn chunk_view(
    doc_id: Seq<char>,
    idx: nat,
    title: Seq<char>,
    content: Seq<char>,
) -> ChunkView {
    ChunkView {
        id: doc_id + "_"@ + text::decimal(idx),
        doc_id,
        chunk_index: idx,
        title,
        content,
    }
}

/// The chunks among the first `k` cuts: those with at least one line and some text.
pub open spec fn chunks_upto(
    doc_id: Seq<char>,
    title: Seq<char>,
    lines: Seq<Seq<char>>,
    starts: Seq<int>,
    k: int,
) -> Seq<ChunkView>
    decreases k,
{
    if k <= 0 {
        Seq::empty()
    } else {
        let prev = chunks_upto(doc_id, title, lines, starts, k - 1);
        let content = content_of(lines, starts, k - 1);
        if starts[k - 1] < end_of(lines, starts, k - 1) && text::trimmed(content).len() > 0 {
            prev.push(chunk_view(doc_id, (k - 1) as nat, title, content))
        } else {
            prev
        }
    }
}

/// The chunks of a document.
pub open spec fn chunks_of(doc_id: Seq<char>, title: Seq<char>, body: Seq<char>) -> Seq<
    ChunkView,
> {
    let lines = text::lines_of(body);
    let starts = starts_of(lines);
    let cut = chunks_upto(doc_id, title, lines, starts, starts.len() as int);
    if lines.len() == 0 {
        Seq::empty()
    } else if tokens_between(lines, 0, lines.len() as int) <= CHUNK_TOKENS || cut.len() == 0 {
        seq![chunk_view(doc_id, 0, title, body)]
    } else {
        cut
    }
}

// ---------------------------------------------------------------------------
// Execution
// ---------------------------------------------------------------------------

/// Builds the chunk with the given index.
pub fn make_chunk(doc_id: &str, idx: usize, title: &str, content: String) -> (r: Chunk)
    ensures
        r@ == chunk_view(doc_id@, idx as nat, title@, content@),
{
    let mut id = doc_id.to_owned();
    id.append("_");
    let digits = text::decimal_of(idx);
    text::push_chars(&mut id, digits.as_slice());
    Chunk { id, doc_id: doc_id.to_owned(), chunk_index: idx, title: title.to_owned(), content }
}

/// The estimated tokens of every line.
fn line_tokens(lines: &Vec<Vec<char>>) -> (r: Vec<usize>)
    ensures
        r@.len() == lines@.len(),
        forall|i: int| 0 <= i < r@.len() ==> (#[trigger] r@[i]) == tokens_of(lines@[i]@),
        forall|i: int| 0 <= i < r@.len() ==> 1 <= (#[trigger] r@[i]) <= usize::MAX / 4 + 1,
{
    let mut out: Vec<usize> = Vec::new();
    let n: usize = lines.len();
    let mut i: usize = 0;
    while i < n
        invariant
            i <= n == lines@.len(),
            out@.len() == i,
            forall|k: int| 0 <= k < i ==> (#[trigger] out@[k]) == tokens_of(lines@[k]@),
            forall|k: int| 0 <= k < i ==> 1 <= (#[trigger] out@[k]) <= usize::MAX / 4 + 1,
        decreases n - i,
    {
        let s = text::string_of(lines[i].as_slice());
        out.push(estimate_tokens(s.as_str()));
        i += 1;
    }
    out
}

/// The break score of every line.
fn line_scores(lines: &Vec<Vec<char>>) -> (r: Vec<u32>)
    ensures
        r@ == scores_of(text::views(lines@)),
{
    let ghost texts = text::views(lines@);
    let mut out: Vec<u32> = Vec::new();
    let n: usize = lines.len();
    let mut i: usize = 0;
    let mut in_fence: bool = false;
    while i < n
        invariant
            i <= n == lines@.len(),
            texts == text::views(lines@),
            out@ == scores_of(texts).take(i as int),
            in_fence == in_fence_at(texts, i as int),
        decreases n - i,
    {
        let s = text::string_of(lines[i].as_slice());
        out.push(break_score(s.as_str(), in_fence));
        assert(texts[i as int] == lines@[i as int]@);
        if text::starts_with(lines[i].as_slice(), "```") {
            in_fence = !in_fence;
        }
        i += 1;
        assert(scores_of(texts).take(i as int) =~= scores_of(texts).take(i - 1).push(
            scores_of(texts)[i - 1],
        ));
    }
    assert(out@ =~= scores_of(texts));
    out
}

/// Whether the lines hold more tokens than fit into one chunk.
fn exceeds_chunk(tokens: &Vec<usize>, Ghost(texts): Ghost<Seq<Seq<char>>>) -> (r: bool)
    requires
        tokens@.len() == texts.len(),
        forall|i: int| 0 <= i < tokens@.len() ==> (#[trigger] tokens@[i]) == tokens_of(texts[i]),
        forall|i: int| 0 <= i < tokens@.len() ==> (#[trigger] tokens@[i]) <= usize::MAX / 4 + 1,
    ensures
        r == (tokens_between(texts, 0, texts.len() as int) > CHUNK_TOKENS),
{
    let n: usize = tokens.len();
    let mut total: usize = 0;
    let mut i: usize = 0;
    while i < n
        invariant
            i <= n == tokens@.len() == texts.len(),
            forall|i: int|
                0 <= i < tokens@.len() ==> (#[trigger] tokens@[i]) == tokens_of(texts[i]),
            forall|i: int|
                0 <= i < tokens@.len() ==> (#[trigger] tokens@[i]) <= usize::MAX / 4 + 1,
            total == tokens_between(texts, 0, i as int),
            total <= CHUNK_TOKENS,
        decreases n - i,
    {
        total += tokens[i];
        i += 1;
        if total > CHUNK_TOKENS {
            proof {
                lemma_tokens_monotone(texts, 0, i as int, n as int);
            }
            return true;
        }
    }
    false
}

/// More lines hold no fewer tokens.
proof fn lemma_tokens_monotone(lines: Seq<Seq<char>>, from: int, mid: int, to: int)
    requires
        mid <= to,
    ensures
        tokens_between(lines, from, mid) <= tokens_between(lines, from, to),
    decreases to - mid,
{
    if mid < to {
        lemma_tokens_monotone(lines, from, mid, to - 1);
    }
}

/// The line with the highest score in `lo..=hi`, the last one of several.
fn find_best(scores: &Vec<u32>, lo: usize, hi: usize) -> (r: usize)
    requires
        lo <= hi < scores@.len(),
    ensures
        r == best_break(scores@, lo as int, hi as int),
        lo <= r <= hi,
{
    let mut best: usize = lo;
    let mut j: usize = lo;
    while j < hi
        invariant
            lo <= best <= j <= hi < scores@.len(),
            best == best_break(scores@, lo as int, j as int),
        decreases hi - j,
    {
        j += 1;
        if scores[j] >= scores[best] {
            best = j;
        }
    }
    best
}

/// The starts as integers.
pub open spec fn ints(v: Seq<usize>) -> Seq<int> {
    Seq::new(v.len(), |i: int| v[i] as int)
}

/// The first lines of the chunks.
fn find_starts(
    tokens: &Vec<usize>,
    scores: &Vec<u32>,
    Ghost(texts): Ghost<Seq<Seq<char>>>,
) -> (r: Vec<usize>)
    requires
        tokens@.len() == texts.len(),
        scores@ == scores_of(texts),
        texts.len() > 0,
        forall|i: int| 0 <= i < tokens@.len() ==> (#[trigger] tokens@[i]) == tokens_of(texts[i]),
    ensures
        ints(r@) == starts_of(texts),
        r@.len() > 0,
        forall|i: int| 0 <= i < r@.len() ==> (#[trigger] r@[i]) <= texts.len(),
{
    let n: usize = tokens.len();
    let mut starts: Vec<usize> = Vec::new();
    starts.push(0);
    let mut acc: usize = 0;
    let mut prev_cut: usize = 0;
    let mut i: usize = 0;
    assert(ints(starts@) =~= seq![0int]);
    while i < n
        invariant
            i <= n == tokens@.len() == texts.len(),
            n > 0,
            scores@ == scores_of(texts),
            forall|i: int|
                0 <= i < tokens@.len() ==> (#[trigger] tokens@[i]) == tokens_of(texts[i]),
            ints(starts@) == cuts_after(texts, i as int).starts,
            starts@.len() > 0,
            prev_cut == starts@.last(),
            prev_cut <= n,
            forall|i: int| 0 <= i < starts@.len() ==> (#[trigger] starts@[i]) <= n,
            acc == (if cuts_after(texts, i as int).acc <= usize::MAX {
                cuts_after(texts, i as int).acc
            } else {
                usize::MAX as nat
            }),
        decreases n - i,
    {
        let ghost before = cuts_after(texts, i as int);
        let ghost old_starts = starts@;
        assert(before.starts.last() == prev_cut) by {
            assert(ints(starts@).last() == starts@.last() as int);
        }
        acc = acc.saturating_add(tokens[i]);
        assert(before.acc + tokens_of(texts[i as int]) >= CHUNK_TOKENS <==> acc >= CHUNK_TOKENS);
        if acc >= CHUNK_TOKENS && i + 1 < n {
            let mut lo: usize = if i > BREAK_WINDOW {
                i - BREAK_WINDOW
            } else {
                0
            };
            let hi: usize = if n - 1 - i > BREAK_WINDOW {
                i + BREAK_WINDOW
            } else {
                n - 1
            };
            let mut best: usize = i;
            if prev_cut < n {
                if lo < prev_cut + 1 {
                    lo = prev_cut + 1;
                }
                if lo <= hi {
                    best = find_best(scores, lo, hi);
                }
            }
            let next: usize = best + 1;
            assert(next == next_cut(scores@, i as int, prev_cut as int));
            if next > prev_cut {
                starts.push(next);
                prev_cut = next;
                acc = 0;
                assert(ints(starts@) =~= ints(old_starts).push(next as int));
            }
        }
        i += 1;
    }
    starts
}

/// The line at which the overlap before line `start` begins.
fn find_overlap(tokens: &Vec<usize>, start: usize, Ghost(texts): Ghost<Seq<Seq<char>>>) -> (r:
    usize)
    requires
        tokens@.len() == texts.len(),
        start <= tokens@.len(),
        forall|i: int| 0 <= i < tokens@.len() ==> (#[trigger] tokens@[i]) == tokens_of(texts[i]),
        forall|i: int| 0 <= i < tokens@.len() ==> (#[trigger] tokens@[i]) <= usize::MAX / 4 + 1,
    ensures
        r == overlap_from(texts, start as int, 0),
        r <= start,
{
    let mut back: usize = start;
    let mut have: usize = 0;
    while back > 0 && have < OVERLAP_TOKENS
        invariant
            back <= start <= tokens@.len() == texts.len(),
            forall|i: int|
                0 <= i < tokens@.len() ==> (#[trigger] tokens@[i]) == tokens_of(texts[i]),
            forall|i: int|
                0 <= i < tokens@.len() ==> (#[trigger] tokens@[i]) <= usize::MAX / 4 + 1,
            overlap_from(texts, start as int, 0) == overlap_from(texts, back as int, have as nat),
        decreases back,
    {
        back -= 1;
        have += tokens[back];
    }
    back
}

/// Splits a document body into overlapping chunks using scored line break points.
///
/// Line by line the estimated tokens are added up; when the chunk size is
/// reached, the chunk ends after the best-scored line within a window of lines
/// around the present one. Every chunk but the first repeats the end of the
/// text before it.
pub fn chunk_document(doc_id: &str, title: &str, body: &str) -> (r: Vec<Chunk>)
    ensures
        chunk_views(r@) == chunks_of(doc_id@, title@, body@),
        are_chunks(body@, chunk_views(r@)),
{
    proof {
        chunks_are_the_parts_of_the_body(doc_id@, title@, body@);
    }
    let chars = text::chars_of(body);
    let lines = text::lines(chars.as_slice());
    let ghost texts = text::views(lines@);
    let n: usize = lines.len();
    let mut chunks: Vec<Chunk> = Vec::new();
    if n == 0 {
        assert(chunk_views(chunks@) =~= Seq::empty());
        return chunks;
    }
    let tokens = line_tokens(&lines);
    assert(forall|i: int| 0 <= i < texts.len() ==> texts[i] == (#[trigger] lines@[i])@);
    if !exceeds_chunk(&tokens, Ghost(texts)) {
        chunks.push(make_chunk(doc_id, 0, title, body.to_owned()));
        assert(chunk_views(chunks@) =~= seq![chunk_view(doc_id@, 0, title@, body@)]);
        return chunks;
    }
    let scores = line_scores(&lines);
    let starts = find_starts(&tokens, &scores, Ghost(texts));
    let ghost cuts = starts_of(texts);
    let count: usize = starts.len();
    let mut k: usize = 0;
    assert(chunk_views(chunks@) =~= Seq::empty());
    while k < count
        invariant
            k <= count == starts@.len(),
            n == lines@.len() == tokens@.len() == texts.len(),
            texts == text::views(lines@),
            cuts == ints(starts@),
            forall|i: int| 0 <= i < starts@.len() ==> (#[trigger] starts@[i]) <= n,
            forall|i: int|
                0 <= i < tokens@.len() ==> (#[trigger] tokens@[i]) == tokens_of(texts[i]),
            forall|i: int|
                0 <= i < tokens@.len() ==> (#[trigger] tokens@[i]) <= usize::MAX / 4 + 1,
            chunk_views(chunks@) == chunks_upto(doc_id@, title@, texts, cuts, k as int),
        decreases count - k,
    {
        let ghost before = chunks@;
        let start: usize = starts[k];
        let end: usize = if k + 1 < count {
            starts[k + 1]
        } else {
            n
        };
        assert(cuts[k as int] == start);
        assert(end == end_of(texts, cuts, k as int));
        if start < end {
            let from: usize = if k == 0 {
                start
            } else {
                find_overlap(&tokens, start, Ghost(texts))
            };
            let content = text::join(&lines, from, end, "\n");
            assert(content@ == content_of(texts, cuts, k as int));
            if text::trim(content.as_slice()).len() > 0 {
                let s = text::string_of(content.as_slice());
                chunks.push(make_chunk(doc_id, k, title, s));
                assert(chunk_views(chunks@) =~= chunk_views(before).push(
                    chunk_view(doc_id@, k as nat, title@, content@),
                ));
            }
        }
        k += 1;
    }
    if chunks.len() == 0 {
        chunks.push(make_chunk(doc_id, 0, title, body.to_owned()));
        assert(chunk_views(chunks@) =~= seq![chunk_view(doc_id@, 0, title@, body@)]);
    }
    chunks
}

// ---------------------------------------------------------------------------
// Laws
// ---------------------------------------------------------------------------

proof fn lemma_best_break_bounds(scores: Seq<u32>, lo: int, hi: int)
    requires
        lo <= hi,
    ensures
        lo <= best_break(scores, lo, hi) <= hi,
        forall|j: int|
            lo <= j <= hi ==> (#[trigger] scores[j]) <= scores[best_break(scores, lo, hi)],
        forall|j: int|
            best_break(scores, lo, hi) < j <= hi ==> (#[trigger] scores[j]) < scores[best_break(
                scores,
                lo,
                hi,
            )],
    decreases hi - lo,
{
    if lo < hi {
        lemma_best_break_bounds(scores, lo, hi - 1);
    }
}

proof fn lemma_cuts_increase(lines: Seq<Seq<char>>, i: int)
    requires
        0 <= i <= lines.len(),
    ensures
        ({
            let starts = cuts_after(lines, i).starts;
            &&& starts.len() > 0
            &&& starts[0] == 0
            &&& forall|a: int, b: int| 0 <= a < b < starts.len() ==> starts[a] < starts[b]
            &&& forall|a: int| 0 <= a < starts.len() ==> 0 <= #[trigger] starts[a] <= lines.len()
        }),
    decreases i,
{
    if i > 0 {
        lemma_cuts_increase(lines, i - 1);
        let prev = cuts_after(lines, i - 1);
        let lo = window_lo(i - 1, prev.starts.last());
        let hi = window_hi(i - 1, lines.len() as int);
        if lo <= hi {
            lemma_best_break_bounds(scores_of(lines), lo, hi);
        }
    }
}

/// Whether line `i` stands between one of the starts and the end of that part.
pub open spec fn in_some_part(lines: Seq<Seq<char>>, starts: Seq<int>, i: int) -> bool {
    exists|k: int|
        0 <= k < starts.len() && #[trigger] starts[k] <= i < end_of(lines, starts, k)
}

/// The cuts of a body begin at its first line, go strictly forward and stay
/// within the body, so that the parts between them are the body's lines, each once.
pub proof fn cuts_partition_the_lines(lines: Seq<Seq<char>>)
    ensures
        ({
            let starts = starts_of(lines);
            &&& starts.len() > 0
            &&& starts[0] == 0
            &&& forall|a: int, b: int| 0 <= a < b < starts.len() ==> starts[a] < starts[b]
            &&& forall|a: int| 0 <= a < starts.len() ==> 0 <= #[trigger] starts[a] <= lines.len()
            &&& forall|i: int| 0 <= i < lines.len() ==> #[trigger] in_some_part(lines, starts, i)
        }),
{
    lemma_cuts_increase(lines, lines.len() as int);
    let starts = starts_of(lines);
    assert forall|i: int| 0 <= i < lines.len() implies #[trigger] in_some_part(
        lines,
        starts,
        i,
    ) by {
        lemma_some_segment(lines, starts, i, starts.len() - 1);
    }
}

proof fn lemma_some_segment(lines: Seq<Seq<char>>, starts: Seq<int>, i: int, k: int)
    requires
        0 <= k < starts.len(),
        starts[0] == 0,
        0 <= i < end_of(lines, starts, k),
    ensures
        in_some_part(lines, starts, i),
    decreases k,
{
    if starts[k] > i {
        lemma_some_segment(lines, starts, i, k - 1);
    }
}

/// Each chunk is cut after the last line of highest score in its window.
pub proof fn cut_is_the_best_break(lines: Seq<Seq<char>>, i: int, prev_cut: int)
    requires
        window_lo(i, prev_cut) <= window_hi(i, lines.len() as int),
    ensures
        ({
            let scores = scores_of(lines);
            let lo = window_lo(i, prev_cut);
            let hi = window_hi(i, lines.len() as int);
            let line = next_cut(scores, i, prev_cut) - 1;
            &&& lo <= line <= hi
            &&& forall|j: int| lo <= j <= hi ==> (#[trigger] scores[j]) <= scores[line]
            &&& forall|j: int| line < j <= hi ==> (#[trigger] scores[j]) < scores[line]
        }),
{
    lemma_best_break_bounds(
        scores_of(lines),
        window_lo(i, prev_cut),
        window_hi(i, lines.len() as int),
    );
}

/// The overlap before line `start` is the shortest run of lines that holds the
/// overlap size, or all the lines before `start` where these hold less.
pub proof fn overlap_is_sufficient(lines: Seq<Seq<char>>, start: int)
    requires
        0 <= start <= lines.len(),
    ensures
        ({
            let from = overlap_from(lines, start, 0);
            &&& 0 <= from <= start
            &&& from == 0 || tokens_between(lines, from, start) >= OVERLAP_TOKENS
            &&& from < start ==> tokens_between(lines, from + 1, start) < OVERLAP_TOKENS
        }),
{
    lemma_overlap(lines, start, start);
}

proof fn lemma_overlap(lines: Seq<Seq<char>>, back: int, start: int)
    requires
        0 <= back <= start <= lines.len(),
        back < start ==> tokens_between(lines, back + 1, start) < OVERLAP_TOKENS,
    ensures
        ({
            let from = overlap_from(lines, back, tokens_between(lines, back, start));
            &&& 0 <= from <= start
            &&& from == 0 || tokens_between(lines, from, start) >= OVERLAP_TOKENS
            &&& from < start ==> tokens_between(lines, from + 1, start) < OVERLAP_TOKENS
        }),
    decreases back,
{
    if back > 0 && tokens_between(lines, back, start) < OVERLAP_TOKENS {
        lemma_tokens_front(lines, back - 1, start);
        lemma_overlap(lines, back - 1, start);
    }
}

proof fn lemma_tokens_front(lines: Seq<Seq<char>>, from: int, to: int)
    requires
        from < to,
    ensures
        tokens_between(lines, from, to) == tokens_of(lines[from]) + tokens_between(
            lines,
            from + 1,
            to,
        ),
    decreases to - from,
{
    if from < to - 1 {
        lemma_tokens_front(lines, from, to - 1);
    } else {
        assert(tokens_between(lines, from, from) == 0);
    }
}

proof fn lemma_overlap_bounds(lines: Seq<Seq<char>>, back: int, have: nat)
    requires
        0 <= back,
    ensures
        0 <= overlap_from(lines, back, have) <= back,
    decreases back,
{
    if back > 0 && have < OVERLAP_TOKENS {
        lemma_overlap_bounds(lines, back - 1, have + tokens_of(lines[back - 1]));
    }
}

/// Joining keeps the text of every part.
proof fn lemma_joined_holds_part(parts: Seq<Seq<char>>, sep: Seq<char>, i: int)
    requires
        0 <= i < parts.len(),
        !text::is_blank(parts[i]),
    ensures
        !text::is_blank(text::joined(parts, sep)),
    decreases parts.len(),
{
    let w = choose|w: int| 0 <= w < parts[i].len() && !text::is_white(#[trigger] parts[i][w]);
    let whole = text::joined(parts, sep);
    if parts.len() == 1 {
        assert(whole[w] == parts[0][w]);
    } else if i == parts.len() - 1 {
        let head = text::joined(parts.drop_last(), sep) + sep;
        assert(whole[head.len() + w] == parts[i][w]);
    } else {
        let shorter = parts.drop_last();
        assert(shorter[i] == parts[i]);
        lemma_joined_holds_part(shorter, sep, i);
        let head = text::joined(shorter, sep);
        let v = choose|v: int| 0 <= v < head.len() && !text::is_white(#[trigger] head[v]);
        assert(whole[v] == head[v]);
    }
}

/// Every chunk among the first `k` cuts whose text is not blank is kept.
proof fn lemma_chunk_kept(
    doc_id: Seq<char>,
    title: Seq<char>,
    lines: Seq<Seq<char>>,
    starts: Seq<int>,
    j: int,
    k: int,
)
    requires
        0 <= j < k,
        starts[j] < end_of(lines, starts, j),
        text::trimmed(content_of(lines, starts, j)).len() > 0,
    ensures
        chunks_upto(doc_id, title, lines, starts, k).contains(
            chunk_view(doc_id, j as nat, title, content_of(lines, starts, j)),
        ),
    decreases k,
{
    let prev = chunks_upto(doc_id, title, lines, starts, k - 1);
    let all = chunks_upto(doc_id, title, lines, starts, k);
    let c = chunk_view(doc_id, j as nat, title, content_of(lines, starts, j));
    if j == k - 1 {
        assert(all.last() == c);
    } else {
        lemma_chunk_kept(doc_id, title, lines, starts, j, k - 1);
        let p = choose|p: int| 0 <= p < prev.len() && prev[p] == c;
        assert(all[p] == c);
    }
}

/// No text is lost: every line that is not blank stands in some chunk, whose
/// content is either the whole body or the joined lines of a range around it.
pub proof fn chunks_cover_every_line(
    doc_id: Seq<char>,
    title: Seq<char>,
    body: Seq<char>,
    i: int,
)
    requires
        0 <= i < text::lines_of(body).len(),
        !text::is_blank(text::lines_of(body)[i]),
    ensures
        exists|c: ChunkView|
            #![trigger chunks_of(doc_id, title, body).contains(c)]
            chunks_of(doc_id, title, body).contains(c) && (c.content == body || exists|
                from: int,
                to: int,
            |
                0 <= from <= i < to <= text::lines_of(body).len() && c.content
                    == #[trigger] text::joined(text::lines_of(body).subrange(from, to), "\n"@)),
{
    let lines = text::lines_of(body);
    let starts = starts_of(lines);
    let all = chunks_of(doc_id, title, body);
    let cut = chunks_upto(doc_id, title, lines, starts, starts.len() as int);
    if tokens_between(lines, 0, lines.len() as int) <= CHUNK_TOKENS || cut.len() == 0 {
        let c = chunk_view(doc_id, 0, title, body);
        assert(all[0] == c);
        assert(all.contains(c));
    } else {
        cuts_partition_the_lines(lines);
        assert(in_some_part(lines, starts, i));
        let k = choose|k: int|
            0 <= k < starts.len() && #[trigger] starts[k] <= i < end_of(lines, starts, k);
        let from = content_start(lines, starts, k);
        let to = end_of(lines, starts, k);
        lemma_overlap_bounds(lines, starts[k], 0);
        assert(to <= lines.len()) by {
            if k + 1 < starts.len() {
                assert(starts[k + 1] <= lines.len());
            }
        }
        let part = lines.subrange(from, to);
        assert(part[i - from] == lines[i]);
        lemma_joined_holds_part(part, "\n"@, i - from);
        text::lemma_trimmed_blank(content_of(lines, starts, k));
        lemma_chunk_kept(doc_id, title, lines, starts, k, starts.len() as int);
        let c = chunk_view(doc_id, k as nat, title, content_of(lines, starts, k));
        assert(all.contains(c));
        assert(c.content == text::joined(lines.subrange(from, to), "\n"@));
    }
}

proof fn lemma_chunk_indices(
    doc_id: Seq<char>,
    title: Seq<char>,
    lines: Seq<Seq<char>>,
    starts: Seq<int>,
    k: int,
)
    ensures
        ({
            let all = chunks_upto(doc_id, title, lines, starts, k);
            &&& forall|a: int| 0 <= a < all.len() ==> (#[trigger] all[a]).chunk_index < k
            &&& forall|a: int, b: int|
                0 <= a < b < all.len() ==> all[a].chunk_index < all[b].chunk_index
            &&& forall|a: int|
                0 <= a < all.len() ==> (#[trigger] all[a]) == chunk_view(
                    doc_id,
                    all[a].chunk_index,
                    title,
                    all[a].content,
                )
        }),
    decreases k,
{
    if k > 0 {
        lemma_chunk_indices(doc_id, title, lines, starts, k - 1);
        let prev = chunks_upto(doc_id, title, lines, starts, k - 1);
        let all = chunks_upto(doc_id, title, lines, starts, k);
        assert forall|a: int| 0 <= a < all.len() implies #[trigger] all[a] == (if a < prev.len() {
            prev[a]
        } else {
            chunk_view(doc_id, (k - 1) as nat, title, content_of(lines, starts, k - 1))
        }) by {}
    }
}

/// Chunk indices increase, so no two chunks of a document share an index; every
/// chunk names its document, carries its title and is identified by the
/// document and the index.
pub proof fn chunk_indices_increase(doc_id: Seq<char>, title: Seq<char>, body: Seq<char>)
    ensures
        ({
            let all = chunks_of(doc_id, title, body);
            &&& forall|a: int, b: int|
                0 <= a < b < all.len() ==> all[a].chunk_index < all[b].chunk_index
            &&& forall|a: int|
                0 <= a < all.len() ==> (#[trigger] all[a]) == chunk_view(
                    doc_id,
                    all[a].chunk_index,
                    title,
                    all[a].content,
                )
        }),
{
    let lines = text::lines_of(body);
    let starts = starts_of(lines);
    lemma_chunk_indices(doc_id, title, lines, starts, starts.len() as int);
}

/// A body without lines has no chunks, and any other body has at least one.
pub proof fn every_text_has_a_chunk(doc_id: Seq<char>, title: Seq<char>, body: Seq<char>)
    ensures
        chunks_of(doc_id, title, body).len() == 0 <==> body.len() == 0,
{
    assert(text::lines_of(body).len() == 0 <==> body.len() == 0);
}

/// Every chunk belongs to the document and carries its title.
pub proof fn chunks_belong_to_the_document(doc_id: Seq<char>, title: Seq<char>, body: Seq<char>)
    ensures
        forall|i: int|
            0 <= i < chunks_of(doc_id, title, body).len() ==> (#[trigger] chunks_of(
                doc_id,
                title,
                body,
            )[i]).doc_id == doc_id && chunks_of(doc_id, title, body)[i].title == title,
{
    let lines = text::lines_of(body);
    let starts = starts_of(lines);
    lemma_chunks_belong(doc_id, title, lines, starts, starts.len() as int);
}

proof fn lemma_chunks_belong(
    doc_id: Seq<char>,
    title: Seq<char>,
    lines: Seq<Seq<char>>,
    starts: Seq<int>,
    k: int,
)
    ensures
        forall|i: int|
            0 <= i < chunks_upto(doc_id, title, lines, starts, k).len() ==> (#[trigger] chunks_upto(
                doc_id,
                title,
                lines,
                starts,
                k,
            )[i]).doc_id == doc_id && chunks_upto(doc_id, title, lines, starts, k)[i].title
                == title,
    decreases k,
{
    if k > 0 {
        lemma_chunks_belong(doc_id, title, lines, starts, k - 1);
        let prev = chunks_upto(doc_id, title, lines, starts, k - 1);
        let now = chunks_upto(doc_id, title, lines, starts, k);
        assert forall|i: int| 0 <= i < now.len() implies (#[trigger] now[i]).doc_id == doc_id
            && now[i].title == title by {
            if i < prev.len() {
                assert(now[i] == prev[i]);
            }
        }
    }
}

// ---------------------------------------------------------------------------
// What the chunks of a body are
// ---------------------------------------------------------------------------

/// Whether a line begins with three backticks.
pub open spec fn has_ticks(line: Seq<char>) -> bool {
    line.len() >= 3 && line[0] == '`' && line[1] == '`' && line[2] == '`'
}

/// How many of the first `n` lines begin with three backticks.
pub open spec fn ticks_among(lines: Seq<Seq<char>>, n: int) -> nat
    decreases n,
{
    if n <= 0 {
        0
    } else {
        ticks_among(lines, n - 1) + if has_ticks(lines[n - 1]) {
            1nat
        } else {
            0nat
        }
    }
}

/// A line of three backticks opens a code fence, and the next one closes it: a
/// line stands inside a fence iff an odd number of them come before it.
pub proof fn fences_open_and_close(lines: Seq<Seq<char>>, i: int)
    requires
        0 <= i <= lines.len(),
    ensures
        in_fence_at(lines, i) <==> ticks_among(lines, i) % 2 == 1,
    decreases i,
{
    if i > 0 {
        fences_open_and_close(lines, i - 1);
        lemma_ticks(lines[i - 1]);
    }
}

/// A fence marker is a line that begins with three backticks.
pub proof fn lemma_ticks(line: Seq<char>)
    ensures
        is_fence(line) <==> has_ticks(line),
{
    reveal_strlit("```");
    let mark = "```"@;
    if is_fence(line) {
        assert(line.subrange(0, 3)[0] == mark[0]);
        assert(line.subrange(0, 3)[1] == mark[1]);
        assert(line.subrange(0, 3)[2] == mark[2]);
    }
    if has_ticks(line) {
        assert(line.subrange(0, 3) =~= mark);
    }
}

/// Whether a line is a heading of the level: so many number signs, then a space.
pub open spec fn is_heading(line: Seq<char>, level: int) -> bool {
    &&& level > 0
    &&& line.len() > level
    &&& forall|i: int| 0 <= i < level ==> #[trigger] line[i] == '#'
    &&& line[level] == ' '
}

/// Whether a line is a rule: three hyphens or three asterisks, with white space
/// around them.
pub open spec fn is_rule(line: Seq<char>) -> bool {
    exists|i: int|
        #![trigger line[i]]
        0 <= i && i + 3 <= line.len() && (line[i] == '-' || line[i] == '*') && line[i + 1]
            == line[i] && line[i + 2] == line[i] && text::is_blank(line.take(i)) && text::is_blank(
            line.skip(i + 3),
        )
}

/// Whether a line is an item of a list: a hyphen, an asterisk or a plus sign, then
/// a space; or a digit, then at least two bytes more.
pub open spec fn is_item(line: Seq<char>) -> bool {
    ||| line.len() > 1 && (line[0] == '-' || line[0] == '*' || line[0] == '+') && line[1] == ' '
    ||| line.len() > 0 && 48 <= line[0] as u32 <= 57 && text::utf8_len(line) > 2
}

/// Headings are the better places to cut the higher their level, then come code
/// fences, rules, blank lines, items of a list and other lines; inside a code fence
/// only its end is a place to cut.
pub proof fn structure_ranks_the_breaks(line: Seq<char>)
    ensures
        score_of(line, true) == if has_ticks(line) {
            80u32
        } else {
            0u32
        },
        forall|level: int|
            1 <= level <= 4 && #[trigger] is_heading(line, level) ==> score_of(line, false) == 110
                - 10 * level,
        has_ticks(line) ==> score_of(line, false) == 80,
        is_rule(line) ==> score_of(line, false) == 60,
        text::is_blank(line) ==> score_of(line, false) == 20,
        is_item(line) && !is_rule(line) ==> score_of(line, false) == 5,
        (forall|level: int| 1 <= level <= 4 ==> !#[trigger] is_heading(line, level))
            && !has_ticks(line) && !is_rule(line) && !text::is_blank(line) && !is_item(line)
            ==> score_of(line, false) == 1,
{
    lemma_ticks(line);
    reveal_strlit("# ");
    reveal_strlit("## ");
    reveal_strlit("### ");
    reveal_strlit("#### ");
    reveal_strlit("- ");
    reveal_strlit("* ");
    reveal_strlit("+ ");
    reveal_strlit("---");
    reveal_strlit("***");
    lemma_heading(line, "# "@, 1);
    lemma_heading(line, "## "@, 2);
    lemma_heading(line, "### "@, 3);
    lemma_heading(line, "#### "@, 4);
    lemma_begins_pair(line, "- "@);
    lemma_begins_pair(line, "* "@);
    lemma_begins_pair(line, "+ "@);
    lemma_rule(line);
    text::lemma_trimmed_blank(line);
    assert(line.len() == 0 ==> text::utf8_len(line) == 0);
    if text::is_blank(line) && line.len() > 0 {
        assert(text::is_white(line[0]));
    }
    if is_rule(line) {
        assert(!text::is_blank(line)) by {
            let i = choose|i: int|
                #![trigger line[i]]
                0 <= i && i + 3 <= line.len() && (line[i] == '-' || line[i] == '*') && line[i + 1]
                    == line[i] && line[i + 2] == line[i] && text::is_blank(line.take(i))
                    && text::is_blank(line.skip(i + 3));
            assert(!text::is_white(line[i]));
        }
        let i = choose|i: int|
            #![trigger line[i]]
            0 <= i && i + 3 <= line.len() && (line[i] == '-' || line[i] == '*') && line[i + 1]
                == line[i] && line[i + 2] == line[i] && text::is_blank(line.take(i))
                && text::is_blank(line.skip(i + 3));
        if i > 0 {
            assert(text::is_white(line.take(i)[0]));
        }
    }
}

/// A prefix of number signs and a space makes a heading.
proof fn lemma_heading(line: Seq<char>, prefix: Seq<char>, level: int)
    requires
        level > 0,
        prefix.len() == level + 1,
        forall|i: int| 0 <= i < level ==> #[trigger] prefix[i] == '#',
        prefix[level] == ' ',
    ensures
        text::begins_with(line, prefix) <==> is_heading(line, level),
{
    if text::begins_with(line, prefix) {
        assert(line.subrange(0, level + 1) == prefix);
        assert forall|i: int| 0 <= i < level implies #[trigger] line[i] == '#' by {
            assert(line.subrange(0, level + 1)[i] == prefix[i]);
        }
        assert(line.subrange(0, level + 1)[level] == prefix[level]);
    }
    if is_heading(line, level) {
        assert(line.subrange(0, level + 1) =~= prefix);
    }
}

/// A prefix of two characters.
proof fn lemma_begins_pair(line: Seq<char>, prefix: Seq<char>)
    requires
        prefix.len() == 2,
    ensures
        text::begins_with(line, prefix) <==> line.len() > 1 && line[0] == prefix[0] && line[1]
            == prefix[1],
{
    if text::begins_with(line, prefix) {
        assert(line.subrange(0, 2)[0] == prefix[0]);
        assert(line.subrange(0, 2)[1] == prefix[1]);
    }
    if line.len() > 1 && line[0] == prefix[0] && line[1] == prefix[1] {
        assert(line.subrange(0, 2) =~= prefix);
    }
}

/// A rule is three hyphens or asterisks once its white space is gone.
proof fn lemma_rule(line: Seq<char>)
    ensures
        is_rule(line) <==> text::trimmed(line) == "---"@ || text::trimmed(line) == "***"@,
{
    reveal_strlit("---");
    reveal_strlit("***");
    if text::trimmed(line) == "---"@ || text::trimmed(line) == "***"@ {
        let (a, b) = text::lemma_trimmed_ends(line);
        let t = text::trimmed(line);
        assert(t == line.subrange(a, b));
        assert(line[a] == t[0] && line[a + 1] == t[1] && line[a + 2] == t[2]);
        assert(text::is_blank(line.take(a)));
        assert(text::is_blank(line.skip(a + 3)));
    }
    if is_rule(line) {
        let i = choose|i: int|
            #![trigger line[i]]
            0 <= i && i + 3 <= line.len() && (line[i] == '-' || line[i] == '*') && line[i + 1]
                == line[i] && line[i + 2] == line[i] && text::is_blank(line.take(i))
                && text::is_blank(line.skip(i + 3));
        assert forall|k: int| 0 <= k < i implies text::is_white(#[trigger] line[k]) by {
            assert(text::is_white(line.take(i)[k]));
        }
        assert forall|k: int| i + 3 <= k < line.len() implies text::is_white(
            #[trigger] line[k],
        ) by {
            assert(text::is_white(line.skip(i + 3)[k - i - 3]));
        }
        text::lemma_trimmed_is(line, i, i + 3);
        assert(line.subrange(i, i + 3) =~= "---"@ || line.subrange(i, i + 3) =~= "***"@);
    }
}

/// The tokens of a run of lines are those of its lines together, and a line has a
/// token for every four whole bytes, but at least one.
pub proof fn tokens_add_up(lines: Seq<Seq<char>>, from: int, mid: int, to: int)
    requires
        0 <= from <= mid <= to <= lines.len(),
    ensures
        tokens_between(lines, from, to) == tokens_between(lines, from, mid) + tokens_between(
            lines,
            mid,
            to,
        ),
        from < to ==> tokens_between(lines, from, from + 1) == tokens_of(lines[from]),
        forall|s: Seq<char>|
            text::utf8_len(s) >= 4 ==> 4 * #[trigger] tokens_of(s) <= text::utf8_len(s) < 4
                * tokens_of(s) + 4,
        forall|s: Seq<char>| text::utf8_len(s) < 4 ==> #[trigger] tokens_of(s) == 1,
    decreases to - mid,
{
    if mid < to {
        tokens_add_up(lines, from, mid, to - 1);
    }
    assert(tokens_between(lines, from, from) == 0);
}

/// Whether line `i` is a place at which a part that begins after `since` may be
/// found to be large enough: the lines from `since` on hold the size of a chunk, some
/// line follows, and the window around `i` reaches beyond the last cut.
pub open spec fn is_full(lines: Seq<Seq<char>>, since: int, i: int, last_cut: int) -> bool {
    &&& tokens_between(lines, since, i + 1) >= CHUNK_TOKENS
    &&& i + 1 < lines.len()
    &&& last_cut < i + BREAK_WINDOW
    &&& last_cut < lines.len() - 1
}

/// Whether line `line` is the best place to cut in the window around `i`: of the
/// lines after the last cut and at most `BREAK_WINDOW` lines away none has a higher
/// score, and none that follows has as high a score.
pub open spec fn is_best_cut(lines: Seq<Seq<char>>, i: int, last_cut: int, line: int) -> bool {
    let scores = scores_of(lines);
    &&& last_cut < line < lines.len()
    &&& i - BREAK_WINDOW <= line <= i + BREAK_WINDOW
    &&& forall|j: int|
        last_cut < j < lines.len() && i - BREAK_WINDOW <= j <= i + BREAK_WINDOW
            ==> #[trigger] scores[j] <= scores[line] && (j > line ==> scores[j] < scores[line])
}

/// Whether part `a` is cut at the best place around the line at which it was found
/// to be large enough, the first such line.
pub open spec fn is_cut_after(
    lines: Seq<Seq<char>>,
    cuts: Seq<int>,
    full: Seq<int>,
    a: int,
) -> bool {
    &&& full[a] < full[a + 1]
    &&& is_full(lines, full[a] + 1, full[a + 1], cuts[a])
    &&& is_best_cut(lines, full[a + 1], cuts[a], cuts[a + 1] - 1)
    &&& forall|i: int|
        full[a] < i < full[a + 1] ==> !#[trigger] is_full(lines, full[a] + 1, i, cuts[a])
}

/// Whether `cuts` are the lines at which the parts of a body begin, where `full`
/// lists the lines at which they were found to be large enough.
pub open spec fn are_cuts(lines: Seq<Seq<char>>, cuts: Seq<int>, full: Seq<int>) -> bool {
    &&& cuts.len() == full.len()
    &&& cuts.len() > 0
    &&& cuts[0] == 0
    &&& full[0] == -1
    &&& forall|a: int, b: int| 0 <= a < b < cuts.len() ==> cuts[a] < cuts[b]
    &&& forall|a: int| 0 <= a < cuts.len() ==> 0 <= #[trigger] cuts[a] <= lines.len()
    &&& forall|a: int| 0 <= a < cuts.len() - 1 ==> #[trigger] is_cut_after(lines, cuts, full, a)
    &&& forall|i: int|
        full.last() < i < lines.len() ==> !#[trigger] is_full(
            lines,
            full.last() + 1,
            i,
            cuts.last(),
        )
}

/// Whether line `from` begins the shortest run of lines before `cut` that holds the
/// size of an overlap, or all the lines before it where they hold less.
pub open spec fn is_overlap(lines: Seq<Seq<char>>, from: int, cut: int) -> bool {
    &&& 0 <= from <= cut
    &&& from > 0 ==> tokens_between(lines, from, cut) >= OVERLAP_TOKENS
    &&& from < cut ==> tokens_between(lines, from + 1, cut) < OVERLAP_TOKENS
}

/// Whether the text of part `k` begins at line `from`.
pub open spec fn part_begins(lines: Seq<Seq<char>>, cuts: Seq<int>, k: int, from: int) -> bool {
    &&& k == 0 ==> from == 0
    &&& k > 0 ==> is_overlap(lines, from, cuts[k])
}

/// Whether part `k` ends before line `to`.
pub open spec fn part_ends(lines: Seq<Seq<char>>, cuts: Seq<int>, k: int, to: int) -> bool {
    &&& k + 1 < cuts.len() ==> to == cuts[k + 1]
    &&& k + 1 >= cuts.len() ==> to == lines.len()
}

/// Whether a text is what a chunk holds of a body: the lines of part `k` and, but for
/// the first part, the overlap before it.
pub open spec fn is_content(
    lines: Seq<Seq<char>>,
    cuts: Seq<int>,
    k: int,
    content: Seq<char>,
) -> bool {
    exists|from: int, to: int|
        part_begins(lines, cuts, k, from) && part_ends(lines, cuts, k, to) && content
            == text::joined(#[trigger] lines.subrange(from, to), "\n"@)
}

/// Whether part `k` of a body has a line.
pub open spec fn has_lines(lines: Seq<Seq<char>>, cuts: Seq<int>, k: int) -> bool {
    0 <= k < cuts.len() && (k + 1 < cuts.len() || cuts[k] < lines.len())
}

/// Whether `all` are the chunks of a body that is cut at `cuts`: one for each part
/// whose text is not blank, in order, each with the number of its part.
pub open spec fn are_parts(lines: Seq<Seq<char>>, cuts: Seq<int>, all: Seq<ChunkView>) -> bool {
    &&& forall|a: int|
        0 <= a < all.len() ==> has_lines(lines, cuts, (#[trigger] all[a]).chunk_index as int)
            && is_content(lines, cuts, all[a].chunk_index as int, all[a].content)
            && !text::is_blank(all[a].content)
    &&& forall|a: int, b: int|
        0 <= a < b < all.len() ==> (#[trigger] all[a]).chunk_index < (
        #[trigger] all[b]).chunk_index
    &&& forall|k: int, content: Seq<char>| #[trigger]
        is_content(lines, cuts, k, content) && has_lines(lines, cuts, k) && !text::is_blank(content)
            ==> exists|a: int|
            0 <= a < all.len() && (#[trigger] all[a]).chunk_index == k && all[a].content
                == content
}

/// Whether `all` are the chunks of a body.
pub open spec fn are_chunks(body: Seq<char>, all: Seq<ChunkView>) -> bool {
    let lines = text::lines_of(body);
    let whole = all.len() == 1 && all[0].chunk_index == 0 && all[0].content == body;
    if body.len() == 0 {
        all.len() == 0
    } else if tokens_between(lines, 0, lines.len() as int) <= CHUNK_TOKENS || text::is_blank(body) {
        whole
    } else {
        exists|cuts: Seq<int>, full: Seq<int>| #[trigger]
            are_cuts(lines, cuts, full) && are_parts(lines, cuts, all)
    }
}

/// The lines at which the parts were found to be large enough, among the first `i`.
spec fn full_after(lines: Seq<Seq<char>>, i: int) -> Seq<int>
    decreases i,
{
    if i <= 0 {
        seq![-1int]
    } else {
        let prev = cuts_after(lines, i - 1);
        if cuts_after(lines, i).starts.len() > prev.starts.len() {
            full_after(lines, i - 1).push(i - 1)
        } else {
            full_after(lines, i - 1)
        }
    }
}

/// What holds of the cuts after the first `i` lines.
spec fn cuts_hold(lines: Seq<Seq<char>>, cuts: Seq<int>, full: Seq<int>, i: int) -> bool {
    &&& cuts.len() == full.len()
    &&& cuts.len() > 0
    &&& cuts[0] == 0
    &&& full[0] == -1
    &&& full.last() < i
    &&& forall|a: int| 0 <= a < cuts.len() - 1 ==> #[trigger] is_cut_after(lines, cuts, full, a)
    &&& forall|j: int|
        full.last() < j < i ==> !#[trigger] is_full(lines, full.last() + 1, j, cuts.last())
}

proof fn lemma_cuts_hold(lines: Seq<Seq<char>>, i: int)
    requires
        0 <= i <= lines.len(),
    ensures
        cuts_hold(lines, cuts_after(lines, i).starts, full_after(lines, i), i),
        -1 <= full_after(lines, i).last(),
        cuts_after(lines, i).acc == tokens_between(
            lines,
            full_after(lines, i).last() + 1,
            i,
        ),
    decreases i,
{
    if i > 0 {
        lemma_cuts_hold(lines, i - 1);
        lemma_cuts_increase(lines, i - 1);
        let prev = cuts_after(lines, i - 1);
        let now = cuts_after(lines, i);
        let was = full_after(lines, i - 1);
        let full = full_after(lines, i);
        let last = prev.starts.last();
        let scores = scores_of(lines);
        let j = i - 1;
        let since = was.last() + 1;
        let lo = window_lo(j, last);
        let hi = window_hi(j, lines.len() as int);
        assert(prev.acc + tokens_of(lines[j]) == tokens_between(lines, since, i));
        if lo <= hi {
            lemma_best_break_bounds(scores, lo, hi);
        }
        let next = next_cut(scores, j, last);
        assert(is_full(lines, since, j, last) <==> now.starts.len() > prev.starts.len());
        if is_full(lines, since, j, last) {
            assert(now.starts == prev.starts.push(next));
            assert(full == was.push(j));
            assert(is_best_cut(lines, j, last, next - 1)) by {
                assert forall|m: int|
                    last < m < lines.len() && j - BREAK_WINDOW <= m <= j
                        + BREAK_WINDOW implies #[trigger] scores[m] <= scores[next - 1] && (m > next
                    - 1 ==> scores[m] < scores[next - 1]) by {
                    assert(lo <= m <= hi);
                }
            }
            let cuts = now.starts;
            let n = prev.starts.len() as int;
            assert forall|a: int| 0 <= a < cuts.len() - 1 implies #[trigger] is_cut_after(
                lines,
                cuts,
                full,
                a,
            ) by {
                assert(cuts[a] == prev.starts[a] && full[a] == was[a]);
                if a < n - 1 {
                    assert(cuts[a + 1] == prev.starts[a + 1] && full[a + 1] == was[a + 1]);
                    assert(is_cut_after(lines, prev.starts, was, a));
                } else {
                    assert(cuts[a + 1] == next && full[a + 1] == j);
                    assert forall|m: int| full[a] < m < full[a + 1] implies !#[trigger] is_full(
                        lines,
                        full[a] + 1,
                        m,
                        cuts[a],
                    ) by {
                        assert(!is_full(lines, was.last() + 1, m, prev.starts.last()));
                    }
                }
            }
            assert(tokens_between(lines, i, i) == 0);
            assert(cuts_hold(lines, cuts, full, i));
        } else {
            assert(now.starts == prev.starts);
            assert(full == was);
            let cuts = prev.starts;
            assert forall|m: int| full.last() < m < i implies !#[trigger] is_full(
                lines,
                full.last() + 1,
                m,
                cuts.last(),
            ) by {
                if m < j {
                    assert(!is_full(lines, was.last() + 1, m, last));
                }
            }
            assert(cuts_hold(lines, cuts, full, i));
        }
    }
}

/// An overlap has one beginning.
proof fn lemma_overlap_once(lines: Seq<Seq<char>>, from: int, other: int, cut: int)
    requires
        cut <= lines.len(),
        is_overlap(lines, from, cut),
        is_overlap(lines, other, cut),
    ensures
        from == other,
{
    if from < other {
        tokens_add_up(lines, from + 1, other, cut);
    }
    if other < from {
        tokens_add_up(lines, other + 1, from, cut);
    }
}

/// The text of a part is one text.
proof fn lemma_content(lines: Seq<Seq<char>>, cuts: Seq<int>, k: int, content: Seq<char>)
    requires
        0 <= k < cuts.len(),
        cuts[0] == 0,
        0 <= cuts[k] <= lines.len(),
    ensures
        is_content(lines, cuts, k, content) <==> content == content_of(lines, cuts, k),
{
    let to = end_of(lines, cuts, k);
    let start = content_start(lines, cuts, k);
    if k > 0 {
        overlap_is_sufficient(lines, cuts[k]);
        assert(is_overlap(lines, start, cuts[k]));
    }
    assert(content_of(lines, cuts, k) == text::joined(lines.subrange(start, to), "\n"@));
    if is_content(lines, cuts, k, content) {
        let (from, till) = choose|from: int, till: int|
            part_begins(lines, cuts, k, from) && part_ends(lines, cuts, k, till) && content
                == text::joined(#[trigger] lines.subrange(from, till), "\n"@);
        if k > 0 {
            lemma_overlap_once(lines, from, start, cuts[k]);
        }
        assert(from == start && till == to);
    }
    assert(part_begins(lines, cuts, k, start) && part_ends(lines, cuts, k, to));
}

/// The chunks of the first `n` parts.
proof fn lemma_parts(
    doc_id: Seq<char>,
    title: Seq<char>,
    lines: Seq<Seq<char>>,
    cuts: Seq<int>,
    n: int,
)
    requires
        0 <= n <= cuts.len(),
        forall|a: int, b: int| 0 <= a < b < cuts.len() ==> cuts[a] < cuts[b],
    ensures
        ({
            let all = chunks_upto(doc_id, title, lines, cuts, n);
            &&& forall|a: int|
                0 <= a < all.len() ==> (#[trigger] all[a]).chunk_index < n && has_lines(
                    lines,
                    cuts,
                    all[a].chunk_index as int,
                ) && all[a].content == content_of(lines, cuts, all[a].chunk_index as int)
                    && !text::is_blank(all[a].content)
        }),
    decreases n,
{
    if n > 0 {
        lemma_parts(doc_id, title, lines, cuts, n - 1);
        let prev = chunks_upto(doc_id, title, lines, cuts, n - 1);
        let all = chunks_upto(doc_id, title, lines, cuts, n);
        text::lemma_trimmed_blank(content_of(lines, cuts, n - 1));
        assert forall|a: int| 0 <= a < all.len() implies (#[trigger] all[a]).chunk_index < n
            && has_lines(lines, cuts, all[a].chunk_index as int) && all[a].content == content_of(
            lines,
            cuts,
            all[a].chunk_index as int,
        ) && !text::is_blank(all[a].content) by {
            if a < prev.len() {
                assert(all[a] == prev[a]);
            }
        }
    }
}

/// A text is blank iff all its lines are.
proof fn lemma_blank_lines(s: Seq<char>)
    ensures
        text::is_blank(s) <==> forall|i: int|
            0 <= i < text::lines_of(s).len() ==> text::is_blank(#[trigger] text::lines_of(s)[i]),
    decreases s.len(),
{
    let lines = text::lines_of(s);
    let end = text::line_end(s) as int;
    if s.len() > 0 {
        text::lemma_line_end(s);
        if end < s.len() {
            let head = s.take(end);
            let rest = s.skip(end + 1);
            let more = text::lines_of(rest);
            lemma_blank_lines(rest);
            assert(lines[0] == text::without_cr(head));
            assert(forall|i: int| 0 <= i < more.len() ==> #[trigger] more[i] == lines[i + 1]);
            assert(forall|i: int| 1 <= i < lines.len() ==> #[trigger] lines[i] == more[i - 1]);
            assert(text::is_blank(lines[0]) <==> text::is_blank(head)) by {
                let bare = text::without_cr(head);
                if text::is_blank(head) {
                    assert forall|k: int| 0 <= k < bare.len() implies text::is_white(
                        #[trigger] bare[k],
                    ) by {
                        assert(text::is_white(head[k]));
                    }
                }
                if text::is_blank(bare) {
                    assert forall|k: int| 0 <= k < head.len() implies text::is_white(
                        #[trigger] head[k],
                    ) by {
                        if k < bare.len() {
                            assert(text::is_white(bare[k]));
                        } else {
                            assert(head.last() == '\r');
                        }
                    }
                }
            }
            if text::is_blank(s) {
                assert forall|k: int| 0 <= k < head.len() implies text::is_white(
                    #[trigger] head[k],
                ) by {
                    assert(text::is_white(s[k]));
                }
                assert forall|k: int| 0 <= k < rest.len() implies text::is_white(
                    #[trigger] rest[k],
                ) by {
                    assert(text::is_white(s[k + end + 1]));
                }
                assert forall|i: int| 0 <= i < lines.len() implies text::is_blank(
                    #[trigger] lines[i],
                ) by {
                    if i > 0 {
                        assert(text::is_blank(more[i - 1]));
                    }
                }
            }
            if forall|i: int| 0 <= i < lines.len() ==> text::is_blank(#[trigger] lines[i]) {
                assert(text::is_blank(lines[0]));
                assert forall|i: int| 0 <= i < more.len() implies text::is_blank(
                    #[trigger] more[i],
                ) by {
                    assert(text::is_blank(lines[i + 1]));
                }
                assert forall|k: int| 0 <= k < s.len() implies text::is_white(#[trigger] s[k]) by {
                    if k < end {
                        assert(text::is_white(head[k]));
                    } else if k > end {
                        assert(text::is_white(rest[k - end - 1]));
                    }
                }
            }
        } else {
            assert(lines[0] == s);
        }
    }
}

/// A blank text has blank parts only.
proof fn lemma_blank_parts(parts: Seq<Seq<char>>)
    requires
        forall|i: int| 0 <= i < parts.len() ==> text::is_blank(#[trigger] parts[i]),
    ensures
        text::is_blank(text::joined(parts, "\n"@)),
    decreases parts.len(),
{
    reveal_strlit("\n");
    if parts.len() > 1 {
        lemma_blank_parts(parts.drop_last());
    }
}

/// The chunks of a body are its parts between the cuts, each but the first with the
/// shortest sufficient overlap before it. A part is cut where its lines first hold
/// the size of a chunk, at the best place around.
pub proof fn chunks_are_the_parts_of_the_body(
    doc_id: Seq<char>,
    title: Seq<char>,
    body: Seq<char>,
)
    ensures
        are_chunks(body, chunks_of(doc_id, title, body)),
{
    let lines = text::lines_of(body);
    let cuts = starts_of(lines);
    let full = full_after(lines, lines.len() as int);
    lemma_cuts_hold(lines, lines.len() as int);
    cuts_partition_the_lines(lines);
    lemma_blank_lines(body);
    if body.len() > 0 && tokens_between(lines, 0, lines.len() as int) > CHUNK_TOKENS {
        if text::is_blank(body) {
            lemma_blank_cut(doc_id, title, lines);
        } else {
            let i = choose|i: int| 0 <= i < lines.len() && !text::is_blank(#[trigger] lines[i]);
            lemma_some_cut(doc_id, title, lines, i);
            lemma_are_parts(doc_id, title, lines);
            assert(are_cuts(lines, cuts, full));
        }
    }
}

/// Blank lines make no chunk.
proof fn lemma_blank_cut(doc_id: Seq<char>, title: Seq<char>, lines: Seq<Seq<char>>)
    requires
        forall|i: int| 0 <= i < lines.len() ==> text::is_blank(#[trigger] lines[i]),
    ensures
        chunks_upto(doc_id, title, lines, starts_of(lines), starts_of(lines).len() as int).len()
            == 0,
{
    let cuts = starts_of(lines);
    let n = cuts.len() as int;
    let cut = chunks_upto(doc_id, title, lines, cuts, n);
    cuts_partition_the_lines(lines);
    lemma_parts(doc_id, title, lines, cuts, n);
    if cut.len() > 0 {
        let k = cut[0].chunk_index as int;
        let from = content_start(lines, cuts, k);
        let to = end_of(lines, cuts, k);
        assert(0 <= cuts[k] <= lines.len());
        lemma_overlap_bounds(lines, cuts[k], 0);
        if k + 1 < n {
            assert(cuts[k + 1] <= lines.len());
        }
        let part = lines.subrange(from, to);
        assert forall|i: int| 0 <= i < part.len() implies text::is_blank(#[trigger] part[i]) by {
            assert(part[i] == lines[from + i]);
        }
        lemma_blank_parts(part);
    }
}

/// A line that is not blank makes a chunk.
proof fn lemma_some_cut(doc_id: Seq<char>, title: Seq<char>, lines: Seq<Seq<char>>, i: int)
    requires
        0 <= i < lines.len(),
        !text::is_blank(lines[i]),
    ensures
        chunks_upto(doc_id, title, lines, starts_of(lines), starts_of(lines).len() as int).len()
            > 0,
{
    let cuts = starts_of(lines);
    let n = cuts.len() as int;
    cuts_partition_the_lines(lines);
    assert(in_some_part(lines, cuts, i));
    let k = choose|k: int| 0 <= k < n && #[trigger] cuts[k] <= i < end_of(lines, cuts, k);
    let from = content_start(lines, cuts, k);
    let to = end_of(lines, cuts, k);
    lemma_overlap_bounds(lines, cuts[k], 0);
    if k + 1 < n {
        assert(cuts[k + 1] <= lines.len());
    }
    let part = lines.subrange(from, to);
    assert(part[i - from] == lines[i]);
    lemma_joined_holds_part(part, "\n"@, i - from);
    text::lemma_trimmed_blank(content_of(lines, cuts, k));
    lemma_chunk_kept(doc_id, title, lines, cuts, k, n);
}

/// The chunks of all parts.
proof fn lemma_are_parts(doc_id: Seq<char>, title: Seq<char>, lines: Seq<Seq<char>>)
    ensures
        are_parts(
            lines,
            starts_of(lines),
            chunks_upto(doc_id, title, lines, starts_of(lines), starts_of(lines).len() as int),
        ),
{
    let cuts = starts_of(lines);
    let n = cuts.len() as int;
    let all = chunks_upto(doc_id, title, lines, cuts, n);
    cuts_partition_the_lines(lines);
    lemma_parts(doc_id, title, lines, cuts, n);
    lemma_chunk_indices(doc_id, title, lines, cuts, n);
    assert forall|a: int| 0 <= a < all.len() implies has_lines(
        lines,
        cuts,
        (#[trigger] all[a]).chunk_index as int,
    ) && is_content(lines, cuts, all[a].chunk_index as int, all[a].content) && !text::is_blank(
        all[a].content,
    ) by {
        lemma_content(lines, cuts, all[a].chunk_index as int, all[a].content);
    }
    assert forall|k: int, content: Seq<char>| #[trigger]
        is_content(lines, cuts, k, content) && has_lines(lines, cuts, k) && !text::is_blank(
            content,
        ) implies exists|a: int|
        0 <= a < all.len() && (#[trigger] all[a]).chunk_index == k && all[a].content == content by {
        lemma_content(lines, cuts, k, content);
        text::lemma_trimmed_blank(content);
        if k + 1 < n {
            assert(cuts[k] < cuts[k + 1]);
        }
        lemma_chunk_kept(doc_id, title, lines, cuts, k, n);
        let c = chunk_view(doc_id, k as nat, title, content);
        let a = choose|a: int| 0 <= a < all.len() && all[a] == c;
        assert(all[a].chunk_index == k);
    }
}

} // verus!
