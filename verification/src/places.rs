//! Where the links, tags and concepts of a text stand: on which lines they are
//! looked for, and that each is found, once and in order.

use vstd::prelude::*;

use crate::chunk;
use crate::graph;
use crate::graph::{CONCEPT_PATTERN, CONTEXT_LEN, HASHTAG_PATTERN, WIKILINK_PATTERN};
use crate::text;

verus! {

// ---------------------------------------------------------------------------
// Places
// ---------------------------------------------------------------------------

/// Whether one place, a line and a match in it, comes before another.
pub open spec fn precedes(a: (int, int), b: (int, int)) -> bool {
    a.0 < b.0 || (a.0 == b.0 && a.1 < b.1)
}

/// Whether line `i` of a text is searched: neither does it stand inside a code fence
/// nor does it open one.
pub open spec fn is_searched(content: Seq<char>, i: int) -> bool {
    let lines = text::lines_of(content);
    0 <= i < lines.len() && chunk::ticks_among(lines, i + 1) % 2 == 0
}

/// What a pattern captures at a place of a text: by the match with the place's number
/// in the place's line, without the carriage returns at its end.
pub open spec fn captured_at(
    pattern: Seq<char>,
    content: Seq<char>,
    at: (int, int),
) -> Option<Seq<char>> {
    let bare = text::without_crs(text::lines_of(content)[at.0]);
    if is_searched(content, at.0) && bare.len() > 0 {
        match graph::regex_captures(pattern, bare) {
            Some(found) => if 0 <= at.1 < found.len() {
                found[at.1].1
            } else {
                None
            },
            None => None,
        }
    } else {
        None
    }
}

/// Whether a pattern captures something to be kept at a place of a text.
pub open spec fn is_kept_at(
    pattern: Seq<char>,
    content: Seq<char>,
    keep: spec_fn(Seq<char>) -> bool,
    at: (int, int),
) -> bool {
    captured_at(pattern, content, at) is Some && keep(captured_at(pattern, content, at).unwrap())
}

/// Whether `places` are all the places of a text at which a pattern captures
/// something to be kept, in order.
pub open spec fn are_places(
    pattern: Seq<char>,
    content: Seq<char>,
    keep: spec_fn(Seq<char>) -> bool,
    places: Seq<(int, int)>,
) -> bool {
    &&& forall|i: int, j: int|
        0 <= i < j < places.len() ==> precedes(#[trigger] places[i], #[trigger] places[j])
    &&& forall|i: int|
        0 <= i < places.len() ==> is_kept_at(pattern, content, keep, #[trigger] places[i])
    &&& forall|at: (int, int)| #[trigger]
        is_kept_at(pattern, content, keep, at) ==> places.contains(at)
}

/// Texts that are not blank.
pub open spec fn not_blank() -> spec_fn(Seq<char>) -> bool {
    |s: Seq<char>| !text::is_blank(s)
}

/// All texts.
pub open spec fn anything() -> spec_fn(Seq<char>) -> bool {
    |s: Seq<char>| true
}

/// Phrases without a stopword.
pub open spec fn no_stopword() -> spec_fn(Seq<char>) -> bool {
    |s: Seq<char>| !graph::has_stopword(s)
}

/// Those of the first `n` matches in line `line` that capture something to be kept.
spec fn line_places(
    line: int,
    found: Seq<(Seq<char>, Option<Seq<char>>)>,
    n: int,
    keep: spec_fn(Seq<char>) -> bool,
) -> Seq<(int, int)>
    decreases n,
{
    if n <= 0 {
        Seq::empty()
    } else {
        let before = line_places(line, found, n - 1, keep);
        match found[n - 1].1 {
            Some(c) => if keep(c) {
                before.push((line, n - 1))
            } else {
                before
            },
            None => before,
        }
    }
}

proof fn lemma_line_places(
    line: int,
    found: Seq<(Seq<char>, Option<Seq<char>>)>,
    n: int,
    keep: spec_fn(Seq<char>) -> bool,
)
    requires
        0 <= n <= found.len(),
    ensures
        ({
            let places = line_places(line, found, n, keep);
            &&& forall|i: int, j: int|
                0 <= i < j < places.len() ==> precedes(#[trigger] places[i], #[trigger] places[j])
            &&& forall|i: int|
                0 <= i < places.len() ==> (#[trigger] places[i]).0 == line && 0 <= places[i].1 < n
                    && found[places[i].1].1 is Some && keep(found[places[i].1].1.unwrap())
            &&& forall|k: int|
                0 <= k < n && (#[trigger] found[k]).1 is Some && keep(found[k].1.unwrap())
                    ==> places.contains((line, k))
        }),
    decreases n,
{
    if n > 0 {
        lemma_line_places(line, found, n - 1, keep);
        let before = line_places(line, found, n - 1, keep);
        let now = line_places(line, found, n, keep);
        assert forall|i: int, j: int| 0 <= i < j < now.len() implies precedes(
            #[trigger] now[i],
            #[trigger] now[j],
        ) by {
            assert(now[i] == before[i]);
            if j < before.len() {
                assert(now[j] == before[j]);
            }
        }
        assert forall|i: int| 0 <= i < now.len() implies (#[trigger] now[i]).0 == line && 0
            <= now[i].1 < n && found[now[i].1].1 is Some && keep(found[now[i].1].1.unwrap()) by {
            if i < before.len() {
                assert(now[i] == before[i]);
            }
        }
        assert forall|k: int|
            0 <= k < n && (#[trigger] found[k]).1 is Some && keep(
                found[k].1.unwrap(),
            ) implies now.contains((line, k)) by {
            if k < n - 1 {
                assert(before.contains((line, k)));
                let i = choose|i: int| 0 <= i < before.len() && before[i] == (line, k);
                assert(now[i] == (line, k));
            } else {
                assert(now.last() == (line, k));
            }
        }
    }
}

/// The places of the first `n` lines.
spec fn places_upto(
    pattern: Seq<char>,
    content: Seq<char>,
    keep: spec_fn(Seq<char>) -> bool,
    n: int,
) -> Seq<(int, int)>
    decreases n,
{
    let lines = text::lines_of(content);
    if n <= 0 {
        Seq::empty()
    } else if chunk::in_fence_at(lines, n) {
        places_upto(pattern, content, keep, n - 1)
    } else {
        let found = graph::matches_in(pattern, lines[n - 1]);
        places_upto(pattern, content, keep, n - 1) + line_places(
            n - 1,
            found,
            found.len() as int,
            keep,
        )
    }
}

/// What is captured in a searched line.
proof fn lemma_captured(pattern: Seq<char>, content: Seq<char>, at: (int, int))
    requires
        0 <= at.0 < text::lines_of(content).len(),
    ensures
        is_searched(content, at.0) <==> !chunk::in_fence_at(text::lines_of(content), at.0 + 1),
        ({
            let found = graph::matches_in(pattern, text::lines_of(content)[at.0]);
            captured_at(pattern, content, at) == if is_searched(content, at.0) && 0 <= at.1
                < found.len() {
                found[at.1].1
            } else {
                None
            }
        }),
{
    chunk::fences_open_and_close(text::lines_of(content), at.0 + 1);
}

proof fn lemma_places_upto(
    pattern: Seq<char>,
    content: Seq<char>,
    keep: spec_fn(Seq<char>) -> bool,
    n: int,
)
    requires
        0 <= n <= text::lines_of(content).len(),
    ensures
        ({
            let places = places_upto(pattern, content, keep, n);
            &&& forall|i: int, j: int|
                0 <= i < j < places.len() ==> precedes(#[trigger] places[i], #[trigger] places[j])
            &&& forall|i: int|
                0 <= i < places.len() ==> 0 <= (#[trigger] places[i]).0 < n && is_kept_at(
                    pattern,
                    content,
                    keep,
                    places[i],
                )
            &&& forall|at: (int, int)| #[trigger]
                is_kept_at(pattern, content, keep, at) && at.0 < n ==> places.contains(at)
        }),
    decreases n,
{
    if n > 0 {
        lemma_places_upto(pattern, content, keep, n - 1);
        let lines = text::lines_of(content);
        let found = graph::matches_in(pattern, lines[n - 1]);
        let before = places_upto(pattern, content, keep, n - 1);
        let more = line_places(n - 1, found, found.len() as int, keep);
        let now = places_upto(pattern, content, keep, n);
        lemma_captured(pattern, content, (n - 1, 0));
        lemma_line_places(n - 1, found, found.len() as int, keep);
        if !chunk::in_fence_at(lines, n) {
            assert(now == before + more);
        }
        assert forall|i: int, j: int| 0 <= i < j < now.len() implies precedes(
            #[trigger] now[i],
            #[trigger] now[j],
        ) by {
            if j < before.len() {
                assert(now[i] == before[i] && now[j] == before[j]);
            } else if i < before.len() {
                assert(now[i] == before[i] && now[j] == more[j - before.len()]);
            } else {
                assert(now[i] == more[i - before.len()] && now[j] == more[j - before.len()]);
            }
        }
        assert forall|i: int| 0 <= i < now.len() implies 0 <= (#[trigger] now[i]).0 < n
            && is_kept_at(pattern, content, keep, now[i]) by {
            if i < before.len() {
                assert(now[i] == before[i]);
            } else {
                assert(now[i] == more[i - before.len()]);
                lemma_captured(pattern, content, now[i]);
            }
        }
        assert forall|at: (int, int)| #[trigger]
            is_kept_at(pattern, content, keep, at) && at.0 < n implies now.contains(at) by {
            if at.0 < n - 1 {
                assert(before.contains(at));
                let i = choose|i: int| 0 <= i < before.len() && before[i] == at;
                assert(now[i] == at);
            } else {
                lemma_captured(pattern, content, at);
                assert(found[at.1].1 is Some && keep(found[at.1].1.unwrap()));
                assert(more.contains((n - 1, at.1)));
                let i = choose|i: int| 0 <= i < more.len() && more[i] == at;
                assert(now[before.len() + i] == at);
            }
        }
    }
}

/// The places of a text are those of its lines.
proof fn lemma_all_places(
    pattern: Seq<char>,
    content: Seq<char>,
    keep: spec_fn(Seq<char>) -> bool,
)
    ensures
        are_places(
            pattern,
            content,
            keep,
            places_upto(pattern, content, keep, text::lines_of(content).len() as int),
        ),
{
    let n = text::lines_of(content).len() as int;
    lemma_places_upto(pattern, content, keep, n);
    let places = places_upto(pattern, content, keep, n);
    assert forall|at: (int, int)| #[trigger]
        is_kept_at(pattern, content, keep, at) implies places.contains(at) by {
        assert(at.0 < n);
    }
}

// ---------------------------------------------------------------------------
// Paragraphs
// ---------------------------------------------------------------------------

/// Whether a blank line stands at index `i`: two line feeds in a row.
pub open spec fn is_gap(content: Seq<char>, i: int) -> bool {
    0 <= i && i + 2 <= content.len() && content[i] == '\n' && content[i + 1] == '\n'
}

/// Whether `context` is the paragraph around index `pos` of a text: what stands
/// between the blank lines next to it, trimmed and shortened; none where that is
/// nothing.
pub open spec fn is_paragraph_at(
    content: Seq<char>,
    pos: int,
    context: Option<Seq<char>>,
) -> bool {
    exists|start: int, end: int| #[trigger]
        are_bounds(content, pos, start, end) && is_shortened(
            text::trimmed(content.subrange(start, end)),
            context,
        )
}

/// Whether the paragraph around `pos` begins at `start` and ends before `end`.
pub open spec fn are_bounds(content: Seq<char>, pos: int, start: int, end: int) -> bool {
    &&& 0 <= start <= pos <= end <= content.len()
    &&& start == 0 || is_gap(content, start - 2)
    &&& end == content.len() || is_gap(content, end)
    &&& forall|i: int| start - 2 < i && i + 2 <= pos ==> !#[trigger] is_gap(content, i)
    &&& forall|i: int| pos <= i < end ==> !#[trigger] is_gap(content, i)
}

/// Whether `context` holds the first characters of a text, as many as fit, or is
/// none where there are none.
pub open spec fn is_shortened(s: Seq<char>, context: Option<Seq<char>>) -> bool {
    match context {
        Some(c) => 0 < c.len() <= CONTEXT_LEN && c.len() <= s.len() && c == s.take(c.len() as int)
            && (c.len() < CONTEXT_LEN ==> c.len() == s.len()),
        None => s.len() == 0,
    }
}

/// A gap is a place of two line feeds.
proof fn lemma_gap(content: Seq<char>, i: int)
    ensures
        text::occurs_at(content, "\n\n"@, i) <==> is_gap(content, i),
{
    reveal_strlit("\n\n");
    let gap = "\n\n"@;
    if text::occurs_at(content, gap, i) {
        assert(content.subrange(i, i + 2)[0] == gap[0]);
        assert(content.subrange(i, i + 2)[1] == gap[1]);
    }
    if is_gap(content, i) {
        assert(content.subrange(i, i + 2) =~= gap);
    }
}

/// The context of a link is the paragraph around it.
pub proof fn context_is_the_paragraph_around(content: Seq<char>, pos: int)
    requires
        0 <= pos <= content.len(),
    ensures
        is_paragraph_at(content, pos, graph::paragraph_at(content, pos)),
{
    let gap = "\n\n"@;
    reveal_strlit("\n\n");
    let head = content.take(pos);
    text::lemma_rfind_from(head, gap, pos - gap.len());
    text::lemma_find_from(content, gap, pos);
    let start = match text::rfind_in(head, gap) {
        Some(i) => i + gap.len(),
        None => 0,
    };
    let end = match text::find_from(content, gap, pos) {
        Some(i) => i,
        None => content.len() as int,
    };
    assert forall|i: int| i + 2 <= pos implies #[trigger] is_gap(content, i) == text::occurs_at(
        head,
        gap,
        i,
    ) by {
        lemma_gap(head, i);
    }
    assert forall|i: int| #[trigger]
        is_gap(content, i) == text::occurs_at(content, gap, i) by {
        lemma_gap(content, i);
    }
    assert(are_bounds(content, pos, start, end));
    let para = text::trimmed(content.subrange(start, end));
    assert(para.take(para.len() as int) =~= para);
    assert(is_shortened(para, graph::paragraph_at(content, pos)));
}

// ---------------------------------------------------------------------------
// Links
// ---------------------------------------------------------------------------

/// Whether a link is what the match at a place stands for: its target, trimmed, and
/// the paragraph around the match.
pub open spec fn is_link_at(
    content: Seq<char>,
    at: (int, int),
    link: (Seq<char>, Option<Seq<char>>),
) -> bool {
    let line = text::without_crs(text::lines_of(content)[at.0]);
    let found = graph::matches_in(WIKILINK_PATTERN@, line);
    &&& captured_at(WIKILINK_PATTERN@, content, at) matches Some(target) && link.0
        == text::trimmed(target)
    &&& link.0.len() > 0
    &&& graph::place_of(line, found, at.1) matches Some(k) ==> is_paragraph_at(
        content,
        text::line_start(content, at.0) + k,
        link.1,
    )
}

/// Whether `links` are the links of a text: one for each match of the pattern on a
/// searched line whose target is not blank, in order.
pub open spec fn are_links(
    content: Seq<char>,
    links: Seq<(Seq<char>, Option<Seq<char>>)>,
) -> bool {
    exists|places: Seq<(int, int)>| #[trigger]
        are_places(WIKILINK_PATTERN@, content, not_blank(), places) && links.len() == places.len()
            && forall|k: int|
            0 <= k < links.len() ==> is_link_at(content, #[trigger] places[k], links[k])
}

proof fn lemma_line_links(
    content: Seq<char>,
    start: int,
    line: Seq<char>,
    at: int,
    found: Seq<(Seq<char>, Option<Seq<char>>)>,
    n: int,
)
    requires
        0 <= n <= found.len(),
    ensures
        ({
            let links = graph::links_in(content, start, line, found, n);
            let places = line_places(at, found, n, not_blank());
            &&& links.len() == places.len()
            &&& forall|k: int|
                0 <= k < links.len() ==> links[k].0 == text::trimmed(
                    found[(#[trigger] places[k]).1].1.unwrap(),
                ) && links[k].1 == graph::context_of(content, start, line, found, places[k].1)
        }),
    decreases n,
{
    if n > 0 {
        lemma_line_links(content, start, line, at, found, n - 1);
        if let Some(target) = found[n - 1].1 {
            text::lemma_trimmed_blank(target);
        }
    }
}

/// The links of the first `n` lines stand at the places of those lines.
proof fn lemma_links_upto(content: Seq<char>, n: int)
    requires
        0 <= n <= text::lines_of(content).len(),
    ensures
        ({
            let links = graph::links_upto(content, n);
            let places = places_upto(WIKILINK_PATTERN@, content, not_blank(), n);
            &&& links.len() == places.len()
            &&& forall|k: int|
                0 <= k < links.len() ==> is_link_at(content, #[trigger] places[k], links[k])
        }),
    decreases n,
{
    if n > 0 {
        lemma_links_upto(content, n - 1);
        let lines = text::lines_of(content);
        if !chunk::in_fence_at(lines, n) {
            let line = text::without_crs(lines[n - 1]);
            let start = text::line_start(content, n - 1);
            let found = graph::matches_in(WIKILINK_PATTERN@, lines[n - 1]);
            let m = found.len() as int;
            let before = graph::links_upto(content, n - 1);
            let more = graph::links_in(content, start, line, found, m);
            let links = graph::links_upto(content, n);
            let had = places_upto(WIKILINK_PATTERN@, content, not_blank(), n - 1);
            let added = line_places(n - 1, found, m, not_blank());
            let places = places_upto(WIKILINK_PATTERN@, content, not_blank(), n);
            assert(links == before + more);
            assert(places == had + added);
            lemma_bare_again(lines[n - 1]);
            assert(graph::matches_in(WIKILINK_PATTERN@, line) == found);
            lemma_line_links(content, start, line, n - 1, found, m);
            lemma_line_places(n - 1, found, m, not_blank());
            text::lemma_line_occurs(content, n - 1);
            assert forall|k: int| 0 <= k < links.len() implies is_link_at(
                content,
                #[trigger] places[k],
                links[k],
            ) by {
                if k < before.len() {
                    assert(places[k] == had[k] && links[k] == before[k]);
                } else {
                    let at = added[k - had.len()];
                    assert(places[k] == at && links[k] == more[k - before.len()]);
                    lemma_captured(WIKILINK_PATTERN@, content, at);
                    text::lemma_trimmed_blank(found[at.1].1.unwrap());
                    if let Some(p) = graph::place_of(line, found, at.1) {
                        graph::lemma_behind(line, found, at.1);
                        text::lemma_find_from(line, found[at.1].0, graph::behind(line, found, at.1));
                        context_is_the_paragraph_around(content, start + p);
                    }
                }
            }
        }
    }
}

/// A line without the carriage returns at its end has none left to lose.
proof fn lemma_bare_again(line: Seq<char>)
    ensures
        text::without_crs(text::without_crs(line)) == text::without_crs(line),
        text::without_crs(line).len() <= line.len(),
    decreases line.len(),
{
    if line.len() > 0 && line.last() == '\r' {
        lemma_bare_again(line.drop_last());
    }
}

/// The links of a text are the matches of the pattern on every line outside code
/// fences whose targets are not blank: none is left out, none is added, and they
/// come in order, each with the paragraph around it.
pub proof fn every_match_outside_code_is_a_link(content: Seq<char>)
    ensures
        are_links(content, graph::links_of(content)),
{
    let n = text::lines_of(content).len() as int;
    lemma_all_places(WIKILINK_PATTERN@, content, not_blank());
    lemma_links_upto(content, n);
    let places = places_upto(WIKILINK_PATTERN@, content, not_blank(), n);
    assert(are_places(WIKILINK_PATTERN@, content, not_blank(), places));
}

/// A match on a line outside code fences whose target is not blank is among the
/// links of the text.
pub proof fn no_link_is_lost(content: Seq<char>, i: int, k: int)
    requires
        is_searched(content, i),
        captured_at(WIKILINK_PATTERN@, content, (i, k)) is Some,
        !text::is_blank(captured_at(WIKILINK_PATTERN@, content, (i, k)).unwrap()),
    ensures
        exists|j: int|
            0 <= j < graph::links_of(content).len() && (#[trigger] graph::links_of(content)[j]).0
                == text::trimmed(captured_at(WIKILINK_PATTERN@, content, (i, k)).unwrap()),
{
    every_match_outside_code_is_a_link(content);
    let links = graph::links_of(content);
    let places = choose|places: Seq<(int, int)>| #[trigger]
        are_places(WIKILINK_PATTERN@, content, not_blank(), places) && links.len() == places.len()
            && forall|k: int|
            0 <= k < links.len() ==> is_link_at(content, #[trigger] places[k], links[k]);
    assert(is_kept_at(WIKILINK_PATTERN@, content, not_blank(), (i, k)));
    assert(places.contains((i, k)));
    let j = choose|j: int| 0 <= j < places.len() && places[j] == (i, k);
    assert(is_link_at(content, places[j], links[j]));
}

// ---------------------------------------------------------------------------
// Tags and concepts
// ---------------------------------------------------------------------------

/// Whether `tags` are the tags of a text: what the pattern captures on the searched
/// lines, in order.
pub open spec fn are_tags(content: Seq<char>, tags: Seq<Seq<char>>) -> bool {
    exists|places: Seq<(int, int)>| #[trigger]
        are_places(HASHTAG_PATTERN@, content, anything(), places) && tags.len() == places.len()
            && forall|k: int|
            0 <= k < tags.len() ==> captured_at(HASHTAG_PATTERN@, content, #[trigger] places[k])
                == Some(tags[k])
}

/// The captures of the matches in a line.
proof fn lemma_line_groups(line: int, found: Seq<(Seq<char>, Option<Seq<char>>)>, n: int)
    requires
        0 <= n <= found.len(),
    ensures
        ({
            let groups = graph::groups_in(found.take(n));
            let places = line_places(line, found, n, anything());
            &&& groups.len() == places.len()
            &&& forall|k: int|
                0 <= k < groups.len() ==> found[(#[trigger] places[k]).1].1 == Some(groups[k])
        }),
    decreases n,
{
    if n > 0 {
        lemma_line_groups(line, found, n - 1);
        assert(found.take(n).drop_last() =~= found.take(n - 1));
        assert(found.take(n).last() == found[n - 1]);
    }
}

/// The tags of the first `n` lines stand at the places of those lines.
proof fn lemma_tags_upto(content: Seq<char>, n: int)
    requires
        0 <= n <= text::lines_of(content).len(),
    ensures
        ({
            let prose = graph::unfenced(text::lines_of(content), n);
            let tags = graph::tags_upto(prose, prose.len() as int);
            let places = places_upto(HASHTAG_PATTERN@, content, anything(), n);
            &&& tags.len() == places.len()
            &&& forall|k: int|
                0 <= k < tags.len() ==> captured_at(
                    HASHTAG_PATTERN@,
                    content,
                    #[trigger] places[k],
                ) == Some(tags[k])
        }),
    decreases n,
{
    if n > 0 {
        lemma_tags_upto(content, n - 1);
        let lines = text::lines_of(content);
        if !chunk::in_fence_at(lines, n) {
            let found = graph::matches_in(HASHTAG_PATTERN@, lines[n - 1]);
            let m = found.len() as int;
            let prose = graph::unfenced(lines, n - 1);
            let before = graph::tags_upto(prose, prose.len() as int);
            let more = graph::groups_in(found);
            let had = places_upto(HASHTAG_PATTERN@, content, anything(), n - 1);
            let added = line_places(n - 1, found, m, anything());
            let places = places_upto(HASHTAG_PATTERN@, content, anything(), n);
            let longer = graph::unfenced(lines, n);
            let tags = graph::tags_upto(longer, longer.len() as int);
            graph::lemma_tags_prefix(prose, seq![lines[n - 1]], prose.len() as int);
            assert(longer =~= prose + seq![lines[n - 1]]);
            assert(tags == before + more);
            assert(places == had + added);
            assert(found.take(m) =~= found);
            lemma_line_groups(n - 1, found, m);
            lemma_line_places(n - 1, found, m, anything());
            assert forall|k: int| 0 <= k < tags.len() implies captured_at(
                HASHTAG_PATTERN@,
                content,
                #[trigger] places[k],
            ) == Some(tags[k]) by {
                if k < before.len() {
                    assert(places[k] == had[k] && tags[k] == before[k]);
                } else {
                    let at = added[k - had.len()];
                    assert(places[k] == at && tags[k] == more[k - before.len()]);
                    lemma_captured(HASHTAG_PATTERN@, content, at);
                }
            }
        }
    }
}

/// The tags of a text are the matches of the pattern on every line outside code
/// fences: none is left out, none is added, and they come in order.
pub proof fn every_match_outside_code_is_a_tag(content: Seq<char>)
    ensures
        are_tags(content, graph::tags_of(content)),
{
    let n = text::lines_of(content).len() as int;
    lemma_all_places(HASHTAG_PATTERN@, content, anything());
    lemma_tags_upto(content, n);
    let places = places_upto(HASHTAG_PATTERN@, content, anything(), n);
    assert(are_places(HASHTAG_PATTERN@, content, anything(), places));
}

/// Whether a phrase stands at two places of a text outside code fences.
pub open spec fn stands_twice(content: Seq<char>, phrase: Seq<char>) -> bool {
    exists|a: (int, int), b: (int, int)|
        a != b && #[trigger] captured_at(CONCEPT_PATTERN@, content, a) == Some(phrase)
            && #[trigger] captured_at(CONCEPT_PATTERN@, content, b) == Some(phrase)
}

/// Whether `concepts` are the concepts of a text: the phrases without a stopword that
/// stand at two places, each listed once.
pub open spec fn are_concepts(content: Seq<char>, concepts: Seq<Seq<char>>) -> bool {
    &&& concepts.no_duplicates()
    &&& forall|phrase: Seq<char>| #[trigger]
        concepts.contains(phrase) <==> stands_twice(content, phrase) && !graph::has_stopword(phrase)
}

/// The captured phrases of a line that are kept.
proof fn lemma_line_phrases(line: int, found: Seq<(Seq<char>, Option<Seq<char>>)>, n: int)
    requires
        0 <= n <= found.len(),
    ensures
        ({
            let phrases = graph::phrases_in(found.take(n));
            let places = line_places(line, found, n, no_stopword());
            &&& phrases.len() == places.len()
            &&& forall|k: int|
                0 <= k < phrases.len() ==> found[(#[trigger] places[k]).1].1 == Some(phrases[k])
        }),
    decreases n,
{
    if n > 0 {
        lemma_line_phrases(line, found, n - 1);
        let front = found.take(n - 1);
        let now = found.take(n);
        assert(now.drop_last() =~= front);
        assert(now.last() == found[n - 1]);
        if let Some(phrase) = found[n - 1].1 {
            assert(graph::groups_in(now).drop_last() =~= graph::groups_in(front));
        }
    }
}

/// The phrases of some lines do not depend on what follows them.
proof fn lemma_phrases_prefix(a: Seq<Seq<char>>, b: Seq<Seq<char>>, n: int)
    requires
        0 <= n <= a.len(),
    ensures
        graph::phrases_upto(a + b, n) == graph::phrases_upto(a, n),
    decreases n,
{
    if n > 0 {
        lemma_phrases_prefix(a, b, n - 1);
        assert((a + b)[n - 1] == a[n - 1]);
    }
}

/// The phrases of the first `n` lines stand at the places of those lines.
proof fn lemma_phrases_upto(content: Seq<char>, n: int)
    requires
        0 <= n <= text::lines_of(content).len(),
    ensures
        ({
            let prose = graph::unfenced(text::lines_of(content), n);
            let phrases = graph::phrases_upto(prose, prose.len() as int);
            let places = places_upto(CONCEPT_PATTERN@, content, no_stopword(), n);
            &&& phrases.len() == places.len()
            &&& forall|k: int|
                0 <= k < phrases.len() ==> captured_at(
                    CONCEPT_PATTERN@,
                    content,
                    #[trigger] places[k],
                ) == Some(phrases[k])
        }),
    decreases n,
{
    if n > 0 {
        lemma_phrases_upto(content, n - 1);
        let lines = text::lines_of(content);
        if !chunk::in_fence_at(lines, n) {
            let found = graph::matches_in(CONCEPT_PATTERN@, lines[n - 1]);
            let m = found.len() as int;
            let prose = graph::unfenced(lines, n - 1);
            let before = graph::phrases_upto(prose, prose.len() as int);
            let more = graph::phrases_in(found);
            let had = places_upto(CONCEPT_PATTERN@, content, no_stopword(), n - 1);
            let added = line_places(n - 1, found, m, no_stopword());
            let places = places_upto(CONCEPT_PATTERN@, content, no_stopword(), n);
            let longer = graph::unfenced(lines, n);
            let phrases = graph::phrases_upto(longer, longer.len() as int);
            lemma_phrases_prefix(prose, seq![lines[n - 1]], prose.len() as int);
            assert(longer =~= prose + seq![lines[n - 1]]);
            assert(phrases == before + more);
            assert(places == had + added);
            assert(found.take(m) =~= found);
            lemma_line_phrases(n - 1, found, m);
            lemma_line_places(n - 1, found, m, no_stopword());
            assert forall|k: int| 0 <= k < phrases.len() implies captured_at(
                CONCEPT_PATTERN@,
                content,
                #[trigger] places[k],
            ) == Some(phrases[k]) by {
                if k < before.len() {
                    assert(places[k] == had[k] && phrases[k] == before[k]);
                } else {
                    let at = added[k - had.len()];
                    assert(places[k] == at && phrases[k] == more[k - before.len()]);
                    lemma_captured(CONCEPT_PATTERN@, content, at);
                }
            }
        }
    }
}

/// The concepts of a text are the phrases without a stopword that stand at two places
/// outside code fences, each listed once.
pub proof fn phrases_that_stand_twice_are_concepts(content: Seq<char>)
    ensures
        are_concepts(content, graph::concepts_of(content)),
{
    let n = text::lines_of(content).len() as int;
    let phrases = graph::phrases_of(content);
    let concepts = graph::concepts_of(content);
    let places = places_upto(CONCEPT_PATTERN@, content, no_stopword(), n);
    lemma_all_places(CONCEPT_PATTERN@, content, no_stopword());
    lemma_phrases_upto(content, n);
    graph::concepts_occur_twice(phrases, Seq::empty());
    assert forall|phrase: Seq<char>| #[trigger]
        concepts.contains(phrase) <==> stands_twice(content, phrase) && !graph::has_stopword(
            phrase,
        ) by {
        graph::concepts_occur_twice(phrases, phrase);
        if concepts.contains(phrase) {
            let (i, j) = choose|i: int, j: int|
                0 <= i < j < phrases.len() && #[trigger] phrases[i] == phrase
                    && #[trigger] phrases[j] == phrase;
            assert(captured_at(CONCEPT_PATTERN@, content, places[i]) == Some(phrase));
            assert(captured_at(CONCEPT_PATTERN@, content, places[j]) == Some(phrase));
            assert(precedes(places[i], places[j]));
            assert(is_kept_at(CONCEPT_PATTERN@, content, no_stopword(), places[i]));
        }
        if stands_twice(content, phrase) && !graph::has_stopword(phrase) {
            let (a, b) = choose|a: (int, int), b: (int, int)|
                a != b && #[trigger] captured_at(CONCEPT_PATTERN@, content, a) == Some(phrase)
                    && #[trigger] captured_at(CONCEPT_PATTERN@, content, b) == Some(phrase);
            assert(is_kept_at(CONCEPT_PATTERN@, content, no_stopword(), a));
            assert(is_kept_at(CONCEPT_PATTERN@, content, no_stopword(), b));
            let i = choose|i: int| 0 <= i < places.len() && places[i] == a;
            let j = choose|j: int| 0 <= j < places.len() && places[j] == b;
            assert(captured_at(CONCEPT_PATTERN@, content, places[i]) == Some(phrases[i]));
            assert(captured_at(CONCEPT_PATTERN@, content, places[j]) == Some(phrases[j]));
            assert(phrases[i] == phrase && phrases[j] == phrase);
            assert(graph::occurs_twice(phrases, phrase)) by {
                if j < i {
                    assert(phrases[j] == phrase && phrases[i] == phrase);
                }
            }
        }
    }
}

} // verus!
