//! How HTML reads: which tags are hidden with what they hold, which stand for
//! markdown, and that the others leave no trace.

use vstd::prelude::*;

use crate::document;
use crate::fetch;
use crate::text;

verus! {

// ---------------------------------------------------------------------------
// Tags
// ---------------------------------------------------------------------------

/// Whether `name` is the name of a tag: lower-case ASCII letters and digits.
pub open spec fn is_tag_name(name: Seq<char>) -> bool {
    &&& name.len() > 0
    &&& forall|i: int|
        0 <= i < name.len() ==> 97 <= (#[trigger] name[i]) as u32 <= 122 || 48 <= name[i] as u32
            <= 57
}

/// Whether a text holds neither kind of angle bracket.
pub open spec fn has_no_bracket(s: Seq<char>) -> bool {
    !s.contains('<') && !s.contains('>')
}

/// What stands between a pair of angle brackets.
pub open spec fn tag_of(inside: Seq<char>) -> Seq<char> {
    seq!['<'] + inside + seq!['>']
}

/// Whether what stands between angle brackets names a tag: its name, in whatever
/// letter case, and nothing or attributes behind it.
pub open spec fn names(inside: Seq<char>, name: Seq<char>) -> bool {
    &&& inside.len() >= name.len()
    &&& text::ascii_lowered(inside.take(name.len() as int)) == name
    &&& inside.len() > name.len() ==> {
        let next = inside[name.len() as int];
        next == '/' || text::is_white(next)
    }
}

/// Whether what stands between angle brackets closes a tag.
pub open spec fn closes(inside: Seq<char>, name: Seq<char>) -> bool {
    text::ascii_lowered(inside) == seq!['/'] + name
}

/// The tags whose blocks hold no readable text.
pub open spec fn is_hidden(name: Seq<char>) -> bool {
    ||| name == "script"@
    ||| name == "style"@
    ||| name == "nav"@
    ||| name == "footer"@
    ||| name == "header"@
    ||| name == "aside"@
    ||| name == "noscript"@
}

/// The names of tags that are looked for.
proof fn lemma_hidden_names()
    ensures
        is_tag_name("script"@),
        is_tag_name("style"@),
        is_tag_name("nav"@),
        is_tag_name("footer"@),
        is_tag_name("header"@),
        is_tag_name("aside"@),
        is_tag_name("noscript"@),
{
    reveal_strlit("script");
    reveal_strlit("style");
    reveal_strlit("nav");
    reveal_strlit("footer");
    reveal_strlit("header");
    reveal_strlit("aside");
    reveal_strlit("noscript");
}

/// A name holds no character that ends one.
proof fn lemma_name_char(name: Seq<char>, i: int)
    requires
        is_tag_name(name),
        0 <= i < name.len(),
    ensures
        !fetch::ends_name(name[i]),
        name[i] != '<',
        name[i] != '>',
        name[i] != '/',
{
}

/// A tag opens at a bracket only.
proof fn lemma_opens_at_bracket(s: Seq<char>, name: Seq<char>)
    requires
        fetch::opens(s, name),
    ensures
        s.len() > 0,
        s[0] == '<',
{
    let low = text::ascii_lowered(s);
    let open = fetch::open_of(name);
    assert(low.subrange(0, open.len() as int)[0] == open[0]);
    assert(low[0] == text::ascii_lower(s[0]));
}

/// What a pair of brackets opens is what stands between them.
proof fn lemma_opens(inside: Seq<char>, rest: Seq<char>, name: Seq<char>)
    requires
        is_tag_name(name),
        has_no_bracket(inside),
    ensures
        fetch::opens(tag_of(inside) + rest, name) <==> names(inside, name),
{
    let s = tag_of(inside) + rest;
    let low = text::ascii_lowered(s);
    let open = fetch::open_of(name);
    let n = name.len() as int;
    let m = inside.len() as int;
    if fetch::opens(s, name) {
        assert(low.subrange(0, n + 1) == open);
        if n > m {
            assert(low.subrange(0, n + 1)[m + 1] == open[m + 1]);
            assert(low[m + 1] == text::ascii_lower('>'));
            lemma_name_char(name, m);
        } else {
            let head = text::ascii_lowered(inside.take(n));
            assert forall|i: int| 0 <= i < n implies head[i] == name[i] by {
                assert(low.subrange(0, n + 1)[i + 1] == open[i + 1]);
                assert(s[i + 1] == inside[i]);
            }
            assert(head =~= name);
            if m > n {
                assert(s[n + 1] == inside[n]);
                assert(inside.contains(inside[n]));
            }
        }
    }
    if names(inside, name) {
        let head = text::ascii_lowered(inside.take(n));
        assert(low.subrange(0, n + 1) =~= open) by {
            assert forall|i: int| 0 <= i < n + 1 implies low[i] == open[i] by {
                if i > 0 {
                    assert(head[i - 1] == name[i - 1]);
                    assert(s[i] == inside[i - 1]);
                }
            }
        }
        if m > n {
            assert(s[n + 1] == inside[n]);
        } else {
            assert(s[n + 1] == '>');
        }
    }
}

/// What stands between brackets names one tag at most.
proof fn lemma_names_one(inside: Seq<char>, a: Seq<char>, b: Seq<char>)
    requires
        is_tag_name(a),
        is_tag_name(b),
        names(inside, a),
        names(inside, b),
    ensures
        a == b,
{
    let x = text::ascii_lowered(inside.take(a.len() as int));
    let y = text::ascii_lowered(inside.take(b.len() as int));
    if a.len() < b.len() {
        let k = a.len() as int;
        lemma_name_char(b, k);
        assert(y[k] == text::ascii_lower(inside[k]));
        assert(false);
    }
    if b.len() < a.len() {
        let k = b.len() as int;
        lemma_name_char(a, k);
        assert(x[k] == text::ascii_lower(inside[k]));
        assert(false);
    }
    assert(a =~= b);
}

/// A closing tag names none.
proof fn lemma_closing_names_none(inside: Seq<char>, tag: Seq<char>, name: Seq<char>)
    requires
        is_tag_name(name),
        closes(inside, tag),
    ensures
        !names(inside, name),
{
    if names(inside, name) {
        let low = text::ascii_lowered(inside);
        assert(low[0] == '/');
        assert(text::ascii_lowered(inside.take(name.len() as int))[0] == name[0]);
        lemma_name_char(name, 0);
    }
}

// ---------------------------------------------------------------------------
// Hidden blocks
// ---------------------------------------------------------------------------

/// Text before the first bracket is kept.
proof fn lemma_blocks_behind(a: Seq<char>, c: Seq<char>, name: Seq<char>)
    requires
        !a.contains('<'),
    ensures
        fetch::without_blocks(a + c, name) == a + fetch::without_blocks(c, name),
    decreases a.len(),
{
    let s = a + c;
    if a.len() > 0 {
        if fetch::opens(s, name) {
            lemma_opens_at_bracket(s, name);
            assert(a.contains(a[0]));
        }
        let rest = a.skip(1);
        assert forall|i: int| 0 <= i < rest.len() implies rest[i] != '<' by {
            assert(a.contains(a[i + 1]));
        }
        lemma_blocks_behind(rest, c, name);
        assert(s.skip(1) =~= rest + c);
        assert(seq![s[0]] + (rest + fetch::without_blocks(c, name)) =~= a + fetch::without_blocks(
            c,
            name,
        ));
        assert(c.len() == 0 || s.len() > 0);
    } else {
        assert(s =~= c);
        assert(a + fetch::without_blocks(c, name) =~= fetch::without_blocks(c, name));
    }
}

/// A tag of another name is kept.
proof fn lemma_blocks_keep_tag(inside: Seq<char>, c: Seq<char>, name: Seq<char>)
    requires
        is_tag_name(name),
        has_no_bracket(inside),
        !names(inside, name),
    ensures
        fetch::without_blocks(tag_of(inside) + c, name) == tag_of(inside) + fetch::without_blocks(
            c,
            name,
        ),
{
    let s = tag_of(inside) + c;
    lemma_opens(inside, c, name);
    let tail = inside + seq!['>'];
    assert(s.skip(1) =~= tail + c);
    assert forall|i: int| 0 <= i < tail.len() implies tail[i] != '<' by {
        if i < inside.len() {
            assert(inside.contains(inside[i]));
        }
    }
    lemma_blocks_behind(tail, c, name);
    assert(seq![s[0]] + (tail + fetch::without_blocks(c, name)) =~= tag_of(inside)
        + fetch::without_blocks(c, name));
}

/// The closing tag of a name.
pub open spec fn closing_tag(name: Seq<char>) -> Seq<char> {
    tag_of(seq!['/'] + name)
}

/// Whether no closing tag of the name stands in a text.
pub open spec fn has_no_closing(s: Seq<char>, name: Seq<char>) -> bool {
    forall|i: int| !#[trigger] text::occurs_at(text::ascii_lowered(s), closing_tag(name), i)
}

/// The first closing tag behind an opening one.
proof fn lemma_first_closing(
    inside: Seq<char>,
    b: Seq<char>,
    end: Seq<char>,
    c: Seq<char>,
    name: Seq<char>,
)
    requires
        is_tag_name(name),
        has_no_bracket(inside),
        names(inside, name),
        has_no_closing(b, name),
        closes(end, name),
    ensures
        ({
            let s = tag_of(inside) + b + tag_of(end) + c;
            text::find_in(text::ascii_lowered(s), fetch::close_of(name)) == Some(
                (tag_of(inside) + b).len() as int,
            )
        }),
{
    let head = tag_of(inside);
    let s = head + b + tag_of(end) + c;
    let low = text::ascii_lowered(s);
    let close = fetch::close_of(name);
    let k = (head + b).len() as int;
    let m = close.len() as int;
    assert(text::ascii_lowered(end).len() == name.len() + 1);
    assert(tag_of(end).len() == m);
    assert(low.subrange(k, k + m) =~= close) by {
        assert forall|i: int| 0 <= i < m implies low.subrange(k, k + m)[i] == #[trigger] close[i] by {
            assert(s[k + i] == tag_of(end)[i]);
            if 0 < i < m - 1 {
                assert(text::ascii_lowered(end)[i - 1] == (seq!['/'] + name)[i - 1]);
            }
        }
    }
    assert(text::occurs_at(low, close, k));
    assert forall|j: int| 0 <= j < k implies !text::occurs_at(low, close, j) by {
        if text::occurs_at(low, close, j) {
            assert(low.subrange(j, j + m)[0] == close[0]);
            assert(low.subrange(j, j + m)[1] == close[1]);
            if j < head.len() {
                assert(s[j] == head[j]);
                if j > 0 && j <= inside.len() {
                    assert(inside.contains(inside[j - 1]));
                } else if j == 0 {
                    assert(s[1] == inside[0]);
                    assert(text::ascii_lowered(inside.take(name.len() as int))[0] == name[0]);
                    lemma_name_char(name, 0);
                }
            } else if j + m <= k {
                let lb = text::ascii_lowered(b);
                let at = j - head.len();
                assert(lb.subrange(at, at + m) =~= low.subrange(j, j + m)) by {
                    assert forall|i: int| 0 <= i < m implies lb.subrange(at, at + m)[i]
                        == #[trigger] low.subrange(j, j + m)[i] by {
                        assert(s[j + i] == b[at + i]);
                    }
                }
                assert(close =~= closing_tag(name));
                assert(text::occurs_at(lb, closing_tag(name), at));
            } else {
                let i = k - j;
                assert(low.subrange(j, j + m)[i] == close[i]);
                assert(low[k] == close[0]);
                if 1 < i < m - 1 {
                    lemma_name_char(name, i - 2);
                }
            }
        }
    }
    text::lemma_find_from(low, close, 0);
}

/// A block of the tag is removed.
proof fn lemma_block_removed(
    inside: Seq<char>,
    b: Seq<char>,
    end: Seq<char>,
    c: Seq<char>,
    name: Seq<char>,
)
    requires
        is_tag_name(name),
        has_no_bracket(inside),
        names(inside, name),
        has_no_closing(b, name),
        closes(end, name),
    ensures
        fetch::without_blocks(tag_of(inside) + b + tag_of(end) + c, name)
            == fetch::without_blocks(c, name),
{
    let s = tag_of(inside) + b + tag_of(end) + c;
    assert(s =~= tag_of(inside) + (b + tag_of(end) + c));
    lemma_opens(inside, b + tag_of(end) + c, name);
    lemma_first_closing(inside, b, end, c, name);
    assert(text::ascii_lowered(end).len() == name.len() + 1);
    let next = (tag_of(inside) + b).len() + fetch::close_of(name).len();
    assert(s.skip(next as int) =~= c);
}

/// Whether a text hides nothing: every bracket that opens in it closes, and no tag of a
/// hidden block stands in it.
pub open spec fn is_all_shown(s: Seq<char>) -> bool {
    &&& is_bracketed(s)
    &&& forall|i: int, name: Seq<char>|
        is_hidden(name) ==> !#[trigger] has_tag_at(s, i, name)
}

/// A text without an opening bracket hides nothing.
pub proof fn texts_without_brackets_are_shown(s: Seq<char>)
    requires
        !s.contains('<'),
    ensures
        is_all_shown(s),
{
    assert forall|i: int| #[trigger] is_closed_at(s, i) by {
        if 0 <= i < s.len() && s[i] == '<' {
            assert(s.contains(s[i]));
        }
    }
    assert forall|i: int, name: Seq<char>| is_hidden(name) implies !#[trigger] has_tag_at(
        s,
        i,
        name,
    ) by {
        if has_tag_at(s, i, name) {
            assert(s.contains(s[i]));
        }
    }
}

proof fn lemma_first_end(s: Seq<char>, j: int) -> (r: int)
    requires
        is_bracket(s, 0, j),
    ensures
        is_bracket(s, 0, r),
        has_no_bracket(s.subrange(1, r)),
    decreases j,
{
    let inside = s.subrange(1, j);
    assert forall|k: int| 0 <= k < inside.len() implies inside[k] != '<' by {
        assert(s[k + 1] != '<');
    }
    if inside.contains('>') {
        let k = choose|k: int| 0 <= k < inside.len() && inside[k] == '>';
        assert(s[k + 1] == '>');
        assert(is_bracket(s, 0, k + 1));
        lemma_first_end(s, k + 1)
    } else {
        j
    }
}

proof fn lemma_shown_rest(s: Seq<char>, n: int)
    requires
        is_all_shown(s),
        0 <= n <= s.len(),
    ensures
        is_all_shown(s.skip(n)),
{
    let rest = s.skip(n);
    lemma_bracketed_rest(s, n);
    assert forall|i: int, name: Seq<char>| is_hidden(name) implies !#[trigger] has_tag_at(
        rest,
        i,
        name,
    ) by {
        if has_tag_at(rest, i, name) {
            let j = choose|j: int|
                #![trigger is_bracket(rest, i, j)]
                is_bracket(rest, i, j) && has_no_bracket(rest.subrange(i + 1, j)) && names(
                    rest.subrange(i + 1, j),
                    name,
                );
            assert(rest.subrange(i + 1, j) =~= s.subrange(n + i + 1, n + j));
            assert(s[n + i] == rest[i] && s[n + j] == rest[j]);
            assert forall|k: int| n + i < k < n + j implies #[trigger] s[k] != '<' by {
                assert(rest[k - n] == s[k]);
            }
            assert(is_bracket(s, n + i, n + j));
            assert(has_tag_at(s, n + i, name));
        }
    }
}

/// Text that hides nothing is kept.
proof fn lemma_blocks_pass(a: Seq<char>, c: Seq<char>, name: Seq<char>)
    requires
        is_tag_name(name),
        is_hidden(name),
        is_all_shown(a),
    ensures
        fetch::without_blocks(a + c, name) == a + fetch::without_blocks(c, name),
    decreases a.len(),
{
    let s = a + c;
    let kept = fetch::without_blocks(c, name);
    if a.len() == 0 {
        assert(s =~= c);
        assert(a + kept =~= kept);
    } else if a[0] != '<' {
        if fetch::opens(s, name) {
            lemma_opens_at_bracket(s, name);
        }
        let rest = a.skip(1);
        lemma_shown_rest(a, 1);
        lemma_blocks_pass(rest, c, name);
        assert(s.skip(1) =~= rest + c);
        assert(seq![s[0]] + (rest + kept) =~= a + kept);
    } else {
        assert(is_closed_at(a, 0));
        let any = choose|j: int| #[trigger] is_bracket(a, 0, j);
        let j = lemma_first_end(a, any);
        let inside = a.subrange(1, j);
        let rest = a.skip(j + 1);
        assert(!has_tag_at(a, 0, name));
        assert(!names(inside, name));
        lemma_shown_rest(a, j + 1);
        lemma_blocks_pass(rest, c, name);
        assert(s =~= tag_of(inside) + (rest + c));
        lemma_blocks_keep_tag(inside, rest + c, name);
        assert(tag_of(inside) + (rest + kept) =~= a + kept);
    }
}

/// A text with a block in it, or without the block.
spec fn around(a: Seq<char>, block: Seq<char>, c: Seq<char>, gone: bool) -> Seq<char> {
    if gone {
        a + c
    } else {
        a + block + c
    }
}

/// Removing the blocks of one tag removes a block of that tag and keeps one of
/// another.
proof fn lemma_blocks_step(
    a: Seq<char>,
    inside: Seq<char>,
    b: Seq<char>,
    end: Seq<char>,
    c: Seq<char>,
    tag: Seq<char>,
    name: Seq<char>,
    gone: bool,
)
    requires
        is_tag_name(tag),
        is_tag_name(name),
        is_hidden(name),
        is_all_shown(a),
        has_no_bracket(inside),
        has_no_bracket(end),
        names(inside, tag),
        closes(end, tag),
        has_no_closing(b, tag),
        gone || tag == name || is_all_shown(b),
    ensures
        ({
            let block = tag_of(inside) + b + tag_of(end);
            fetch::without_blocks(around(a, block, c, gone), name) == around(
                a,
                block,
                fetch::without_blocks(c, name),
                gone || tag == name,
            )
        }),
{
    let block = tag_of(inside) + b + tag_of(end);
    let rest = fetch::without_blocks(c, name);
    lemma_blocks_pass(a, c, name);
    if !gone {
        assert(a + block + c =~= a + (block + c));
        lemma_blocks_pass(a, block + c, name);
        if tag == name {
            lemma_block_removed(inside, b, end, c, name);
        } else {
            if names(inside, name) {
                lemma_names_one(inside, tag, name);
            }
            lemma_closing_names_none(end, tag, name);
            let tail = b + tag_of(end) + c;
            assert(block + c =~= tag_of(inside) + tail);
            lemma_blocks_keep_tag(inside, tail, name);
            assert(tail =~= b + (tag_of(end) + c));
            lemma_blocks_pass(b, tag_of(end) + c, name);
            lemma_blocks_keep_tag(end, c, name);
            assert(a + (tag_of(inside) + (b + (tag_of(end) + rest))) =~= a + block + rest);
        }
    }
}

/// A block of a tag that holds no readable text leaves no trace, whatever other tags
/// stand before it and in it: the page reads as if it were not there.
pub proof fn hidden_blocks_leave_no_trace(
    a: Seq<char>,
    inside: Seq<char>,
    b: Seq<char>,
    end: Seq<char>,
    c: Seq<char>,
    name: Seq<char>,
)
    requires
        is_hidden(name),
        is_all_shown(a),
        has_no_bracket(inside),
        names(inside, name),
        is_all_shown(b),
        has_no_closing(b, name),
        has_no_bracket(end),
        closes(end, name),
    ensures
        fetch::readable(a + tag_of(inside) + b + tag_of(end) + c) == fetch::readable(a + c),
        fetch::page_text(a + tag_of(inside) + b + tag_of(end) + c) == fetch::page_text(a + c),
{
    lemma_hidden_names();
    lemma_hidden_gone(a, inside, b, end, c, name);
}

/// A script leaves no trace, whatever it holds up to its closing tag.
pub proof fn scripts_leave_no_trace(
    a: Seq<char>,
    inside: Seq<char>,
    b: Seq<char>,
    end: Seq<char>,
    c: Seq<char>,
)
    requires
        is_all_shown(a),
        has_no_bracket(inside),
        names(inside, "script"@),
        has_no_closing(b, "script"@),
        has_no_bracket(end),
        closes(end, "script"@),
    ensures
        fetch::readable(a + tag_of(inside) + b + tag_of(end) + c) == fetch::readable(a + c),
        fetch::page_text(a + tag_of(inside) + b + tag_of(end) + c) == fetch::page_text(a + c),
{
    lemma_hidden_names();
    lemma_hidden_gone(a, inside, b, end, c, "script"@);
}

/// A script that is not closed hides the rest of the page.
pub proof fn unclosed_scripts_hide_the_rest(a: Seq<char>, inside: Seq<char>, b: Seq<char>)
    requires
        is_all_shown(a),
        has_no_bracket(inside),
        names(inside, "script"@),
        has_no_closing(b, "script"@),
    ensures
        fetch::readable(a + tag_of(inside) + b) == fetch::readable(a),
        fetch::page_text(a + tag_of(inside) + b) == fetch::page_text(a),
{
    lemma_hidden_names();
    let name = "script"@;
    let s = tag_of(inside) + b;
    let low = text::ascii_lowered(s);
    let close = fetch::close_of(name);
    let n = tag_of(inside).len() as int;
    assert(close =~= closing_tag(name));
    assert forall|i: int| !#[trigger] text::occurs_at(low, close, i) by {
        if text::occurs_at(low, close, i) {
            let part = low.subrange(i, i + close.len());
            assert(part[0] == '<' && part[1] == '/');
            assert(low[i] == text::ascii_lower(s[i]));
            assert(low[i + 1] == text::ascii_lower(s[i + 1]));
            if i == 0 {
                assert(text::ascii_lowered(inside.take(name.len() as int))[0] == name[0]);
                assert(s[1] == inside[0]);
                lemma_name_char(name, 0);
            } else if i < n {
                if i < n - 1 {
                    assert(inside.contains(inside[i - 1]));
                }
            } else {
                assert(text::ascii_lowered(b).subrange(i - n, i - n + close.len()) =~= part);
                assert(text::occurs_at(text::ascii_lowered(b), closing_tag(name), i - n));
            }
        }
    }
    text::lemma_find_from(low, close, 0);
    lemma_opens(inside, b, name);
    assert(fetch::without_blocks(s, name) =~= Seq::empty());
    lemma_blocks_pass(a, s, name);
    lemma_blocks_pass(a, Seq::empty(), name);
    assert(a + tag_of(inside) + b =~= a + s);
    assert(a + Seq::<char>::empty() =~= a);
    assert(fetch::without_blocks(Seq::empty(), name) =~= Seq::empty());
}

proof fn lemma_hidden_gone(
    a: Seq<char>,
    inside: Seq<char>,
    b: Seq<char>,
    end: Seq<char>,
    c: Seq<char>,
    name: Seq<char>,
)
    requires
        is_hidden(name),
        is_tag_name(name),
        is_all_shown(a),
        has_no_bracket(inside),
        names(inside, name),
        has_no_closing(b, name),
        name == "script"@ || is_all_shown(b),
        has_no_bracket(end),
        closes(end, name),
    ensures
        fetch::readable(a + tag_of(inside) + b + tag_of(end) + c) == fetch::readable(a + c),
        fetch::page_text(a + tag_of(inside) + b + tag_of(end) + c) == fetch::page_text(a + c),
{
    let block = tag_of(inside) + b + tag_of(end);
    lemma_hidden_names();
    let g0 = false;
    let c0 = c;
    lemma_blocks_step(a, inside, b, end, c0, name, "script"@, g0);
    lemma_blocks_step(a, inside, b, end, c0, name, "script"@, true);
    let g1 = g0 || name == "script"@;
    let c1 = fetch::without_blocks(c0, "script"@);
    lemma_blocks_step(a, inside, b, end, c1, name, "style"@, g1);
    lemma_blocks_step(a, inside, b, end, c1, name, "style"@, true);
    let g2 = g1 || name == "style"@;
    let c2 = fetch::without_blocks(c1, "style"@);
    lemma_blocks_step(a, inside, b, end, c2, name, "nav"@, g2);
    lemma_blocks_step(a, inside, b, end, c2, name, "nav"@, true);
    let g3 = g2 || name == "nav"@;
    let c3 = fetch::without_blocks(c2, "nav"@);
    lemma_blocks_step(a, inside, b, end, c3, name, "footer"@, g3);
    lemma_blocks_step(a, inside, b, end, c3, name, "footer"@, true);
    let g4 = g3 || name == "footer"@;
    let c4 = fetch::without_blocks(c3, "footer"@);
    lemma_blocks_step(a, inside, b, end, c4, name, "header"@, g4);
    lemma_blocks_step(a, inside, b, end, c4, name, "header"@, true);
    let g5 = g4 || name == "header"@;
    let c5 = fetch::without_blocks(c4, "header"@);
    lemma_blocks_step(a, inside, b, end, c5, name, "aside"@, g5);
    lemma_blocks_step(a, inside, b, end, c5, name, "aside"@, true);
    let g6 = g5 || name == "aside"@;
    let c6 = fetch::without_blocks(c5, "aside"@);
    lemma_blocks_step(a, inside, b, end, c6, name, "noscript"@, g6);
    lemma_blocks_step(a, inside, b, end, c6, name, "noscript"@, true);
    assert(a + tag_of(inside) + b + tag_of(end) + c =~= around(a, block, c, false));
    assert(a + c =~= around(a, block, c, true));
}

// ---------------------------------------------------------------------------
// What is left of a page
// ---------------------------------------------------------------------------

/// Whether the bracket that opens at index `i` closes at index `j`, with no other
/// bracket opening in between.
pub open spec fn is_bracket(s: Seq<char>, i: int, j: int) -> bool {
    &&& 0 <= i < j < s.len()
    &&& s[i] == '<'
    &&& s[j] == '>'
    &&& forall|k: int| i < k < j ==> #[trigger] s[k] != '<'
}

/// Whether every bracket that opens at index `i` closes.
pub open spec fn is_closed_at(s: Seq<char>, i: int) -> bool {
    0 <= i < s.len() && s[i] == '<' ==> exists|j: int| #[trigger] is_bracket(s, i, j)
}

/// Whether every bracket of a text closes before the next one opens.
pub open spec fn is_bracketed(s: Seq<char>) -> bool {
    forall|i: int| #[trigger] is_closed_at(s, i)
}

/// Whether a tag of the name stands at index `i`.
pub open spec fn has_tag_at(s: Seq<char>, i: int, name: Seq<char>) -> bool {
    exists|j: int|
        #![trigger is_bracket(s, i, j)]
        is_bracket(s, i, j) && has_no_bracket(s.subrange(i + 1, j)) && names(
            s.subrange(i + 1, j),
            name,
        )
}

/// Whether no tag of the name opens in a text.
spec fn opens_none(s: Seq<char>, name: Seq<char>) -> bool {
    forall|p: int| 0 <= p < s.len() ==> !fetch::opens(#[trigger] s.skip(p), name)
}

/// What follows a place is bracketed like the text.
proof fn lemma_bracketed_rest(s: Seq<char>, n: int)
    requires
        is_bracketed(s),
        0 <= n <= s.len(),
    ensures
        is_bracketed(s.skip(n)),
{
    let t = s.skip(n);
    assert forall|i: int| #[trigger] is_closed_at(t, i) by {
        if 0 <= i < t.len() && t[i] == '<' {
            assert(is_closed_at(s, n + i));
            let j = choose|j: int| #[trigger] is_bracket(s, n + i, j);
            assert forall|k: int| i < k < j - n implies #[trigger] t[k] != '<' by {
                assert(s[n + k] != '<');
            }
            assert(is_bracket(t, i, j - n));
        }
    }
}

/// Texts that begin alike, up to the closing of the bracket that begins them, open
/// the same tags.
proof fn lemma_opens_alike(s: Seq<char>, t: Seq<char>, j: int, name: Seq<char>)
    requires
        is_tag_name(name),
        is_bracket(s, 0, j),
        j < t.len(),
        forall|i: int| 0 <= i <= j ==> #[trigger] s[i] == t[i],
        fetch::opens(t, name),
    ensures
        fetch::opens(s, name),
{
    let open = fetch::open_of(name);
    let n = open.len() as int;
    let low = text::ascii_lowered(t);
    assert(low.subrange(0, n) == open);
    assert(s[j] == t[j]);
    if n > j {
        assert(low.subrange(0, n)[j] == open[j]);
        assert(low[j] == text::ascii_lower(t[j]));
        assert(open[j] == name[j - 1]);
        lemma_name_char(name, j - 1);
        assert(false);
    }
    let low2 = text::ascii_lowered(s);
    assert(low2.subrange(0, n) =~= open) by {
        assert forall|i: int| 0 <= i < n implies low2[i] == open[i] by {
            assert(low.subrange(0, n)[i] == open[i]);
            assert(s[i] == t[i]);
        }
    }
    assert(s[n] == t[n]);
}

/// Removing the blocks of one tag leaves none of its tags, adds none of another, and
/// leaves no bracket open.
proof fn lemma_blocks_gone(s: Seq<char>, name: Seq<char>, other: Seq<char>)
    requires
        is_tag_name(name),
        is_tag_name(other),
        is_bracketed(s),
        name == other || opens_none(s, other),
    ensures
        is_bracketed(fetch::without_blocks(s, name)),
        opens_none(fetch::without_blocks(s, name), other),
    decreases s.len(),
{
    let r = fetch::without_blocks(s, name);
    if s.len() == 0 {
    } else if fetch::opens(s, name) {
        let low = text::ascii_lowered(s);
        text::lemma_find_from(low, fetch::close_of(name), 0);
        if let Some(end) = text::find_in(low, fetch::close_of(name)) {
            let next = end + fetch::close_of(name).len();
            lemma_bracketed_rest(s, next);
            lemma_rest_opens_none(s, next, name, other);
            lemma_blocks_gone(s.skip(next), name, other);
        }
    } else {
        let rest = s.skip(1);
        let kept = fetch::without_blocks(rest, name);
        lemma_bracketed_rest(s, 1);
        lemma_rest_opens_none(s, 1, name, other);
        lemma_blocks_gone(rest, name, other);
        assert(r == seq![s[0]] + kept);
        if s[0] == '<' {
            assert(is_closed_at(s, 0));
            let j = choose|j: int| #[trigger] is_bracket(s, 0, j);
            let a = rest.take(j);
            let c = rest.skip(j);
            assert(rest =~= a + c);
            assert forall|i: int| 0 <= i < a.len() implies a[i] != '<' by {
                assert(a[i] == s[i + 1]);
            }
            lemma_blocks_behind(a, c, name);
            assert forall|k: int| 0 <= k <= j implies #[trigger] s[k] == r[k] by {
                if k > 0 {
                    assert(a[k - 1] == s[k]);
                }
            }
            assert forall|k: int| 0 < k < j implies #[trigger] r[k] != '<' by {
                assert(s[k] == r[k]);
            }
            assert(s[j] == r[j]);
            assert(is_bracket(r, 0, j));
            if fetch::opens(r, other) {
                lemma_opens_alike(s, r, j, other);
                assert(s.skip(0) =~= s);
                assert(!fetch::opens(s.skip(0), other) || name == other);
            }
        } else if fetch::opens(r, other) {
            lemma_opens_at_bracket(r, other);
        }
        assert forall|i: int| #[trigger] is_closed_at(r, i) by {
            if 0 < i < r.len() && r[i] == '<' {
                assert(kept[i - 1] == r[i]);
                assert(is_closed_at(kept, i - 1));
                let m = choose|m: int| #[trigger] is_bracket(kept, i - 1, m);
                assert forall|k: int| i < k < m + 1 implies #[trigger] r[k] != '<' by {
                    assert(kept[k - 1] != '<');
                }
                assert(is_bracket(r, i, m + 1));
            }
        }
        assert forall|p: int| 0 <= p < r.len() implies !fetch::opens(
            #[trigger] r.skip(p),
            other,
        ) by {
            if p == 0 {
                assert(r.skip(0) =~= r);
            } else {
                assert(r.skip(p) =~= kept.skip(p - 1));
            }
        }
    }
}

/// What follows a place opens none where the text opens none.
proof fn lemma_rest_opens_none(s: Seq<char>, n: int, name: Seq<char>, other: Seq<char>)
    requires
        0 <= n <= s.len(),
        name == other || opens_none(s, other),
    ensures
        name == other || opens_none(s.skip(n), other),
{
    if name != other {
        let t = s.skip(n);
        assert forall|p: int| 0 <= p < t.len() implies !fetch::opens(
            #[trigger] t.skip(p),
            other,
        ) by {
            assert(t.skip(p) =~= s.skip(n + p));
        }
    }
}

/// In a text without opened tags of a name no tag of the name stands.
proof fn lemma_no_tag_at(s: Seq<char>, i: int, name: Seq<char>)
    requires
        is_tag_name(name),
        opens_none(s, name),
    ensures
        !has_tag_at(s, i, name),
{
    if has_tag_at(s, i, name) {
        let j = choose|j: int|
            #![trigger is_bracket(s, i, j)]
            is_bracket(s, i, j) && has_no_bracket(s.subrange(i + 1, j)) && names(
                s.subrange(i + 1, j),
                name,
            );
        let inside = s.subrange(i + 1, j);
        let rest = s.skip(j + 1);
        lemma_opens(inside, rest, name);
        assert(s.skip(i) =~= tag_of(inside) + rest);
    }
}

/// What is left of a page holds no tag of a block without readable text, where every
/// bracket of the page closes before the next one opens.
pub proof fn no_hidden_tag_is_left(html: Seq<char>, i: int, name: Seq<char>)
    requires
        is_bracketed(html),
        is_hidden(name),
    ensures
        !has_tag_at(fetch::readable(html), i, name),
        is_bracketed(fetch::readable(html)),
{
    lemma_hidden_names();
    let t0 = html;
    let t1 = fetch::without_blocks(t0, "script"@);
    let t2 = fetch::without_blocks(t1, "style"@);
    let t3 = fetch::without_blocks(t2, "nav"@);
    let t4 = fetch::without_blocks(t3, "footer"@);
    let t5 = fetch::without_blocks(t4, "header"@);
    let t6 = fetch::without_blocks(t5, "aside"@);
    let t7 = fetch::without_blocks(t6, "noscript"@);
    lemma_blocks_gone(t0, "script"@, "script"@);
    lemma_blocks_gone(t1, "style"@, "style"@);
    lemma_blocks_gone(t2, "nav"@, "nav"@);
    lemma_blocks_gone(t3, "footer"@, "footer"@);
    lemma_blocks_gone(t4, "header"@, "header"@);
    lemma_blocks_gone(t5, "aside"@, "aside"@);
    lemma_blocks_gone(t6, "noscript"@, "noscript"@);
    if name == "script"@ {
        lemma_blocks_gone(t1, "style"@, name);
    }
    if name == "script"@ || name == "style"@ {
        lemma_blocks_gone(t2, "nav"@, name);
    }
    if name == "script"@ || name == "style"@ || name == "nav"@ {
        lemma_blocks_gone(t3, "footer"@, name);
    }
    if name == "script"@ || name == "style"@ || name == "nav"@ || name == "footer"@ {
        lemma_blocks_gone(t4, "header"@, name);
    }
    if name != "aside"@ && name != "noscript"@ {
        lemma_blocks_gone(t5, "aside"@, name);
    }
    if name != "noscript"@ {
        lemma_blocks_gone(t6, "noscript"@, name);
    }
    assert(opens_none(t7, name));
    lemma_no_tag_at(t7, i, name);
}

// ---------------------------------------------------------------------------
// Blocks as markdown
// ---------------------------------------------------------------------------

/// So many number signs.
pub open spec fn number_signs(n: int) -> Seq<char> {
    Seq::new(n as nat, |i: int| '#')
}

/// The level of a heading's tag.
pub open spec fn heading_level(name: Seq<char>) -> int {
    if name.len() == 2 && name[0] == 'h' && 49 <= name[1] as u32 <= 54 {
        name[1] as u32 - 48
    } else {
        0
    }
}

/// The markdown that the opening tag of a block stands for, if it is one.
pub open spec fn markdown_of(name: Seq<char>) -> Option<Seq<char>> {
    if heading_level(name) > 0 {
        Some(seq!['\n', '\n'] + number_signs(heading_level(name)) + seq![' '])
    } else if name == "p"@ {
        Some(seq!['\n', '\n'])
    } else if name == "br"@ || name == "tr"@ || name == "div"@ {
        Some(seq!['\n'])
    } else if name == "li"@ {
        Some(seq!['\n', '-', ' '])
    } else if name == "td"@ || name == "th"@ {
        Some(seq![' ', ' '])
    } else if name == "blockquote"@ {
        Some(seq!['\n', '\n', '>', ' '])
    } else if name == "hr"@ {
        Some(seq!['\n', '\n', '-', '-', '-', '\n', '\n'])
    } else {
        None
    }
}

/// Text before the first bracket is kept.
proof fn lemma_tags_behind(a: Seq<char>, c: Seq<char>, name: Seq<char>, to: Seq<char>)
    requires
        !a.contains('<'),
    ensures
        fetch::tag_replaced(a + c, name, to) == a + fetch::tag_replaced(c, name, to),
    decreases a.len(),
{
    let s = a + c;
    if a.len() > 0 {
        if fetch::opens(s, name) {
            lemma_opens_at_bracket(s, name);
            assert(a.contains(a[0]));
        }
        let rest = a.skip(1);
        assert forall|i: int| 0 <= i < rest.len() implies rest[i] != '<' by {
            assert(a.contains(a[i + 1]));
        }
        lemma_tags_behind(rest, c, name, to);
        assert(s.skip(1) =~= rest + c);
        assert(seq![s[0]] + (rest + fetch::tag_replaced(c, name, to)) =~= a + fetch::tag_replaced(
            c,
            name,
            to,
        ));
    } else {
        assert(s =~= c);
        assert(a + fetch::tag_replaced(c, name, to) =~= fetch::tag_replaced(c, name, to));
    }
}

/// A tag ends at its closing bracket.
proof fn lemma_tag_ends(s: Seq<char>, n: int)
    requires
        0 <= n < s.len(),
        s[n] == '>',
        forall|i: int| 0 <= i < n ==> #[trigger] s[i] != '>',
    ensures
        fetch::tag_len(s) == n + 1,
    decreases n,
{
    if n > 0 {
        assert(s[0] != '>');
        let rest = s.skip(1);
        assert forall|i: int| 0 <= i < n - 1 implies #[trigger] rest[i] != '>' by {
            assert(s[i + 1] != '>');
        }
        lemma_tag_ends(rest, n - 1);
    }
}

/// A tag, replaced or not, with text around it.
spec fn marked_around(
    a: Seq<char>,
    tag: Seq<char>,
    to: Seq<char>,
    c: Seq<char>,
    done: bool,
) -> Seq<char> {
    if done {
        a + to + c
    } else {
        a + tag + c
    }
}

/// Replacing the tags of one name replaces a tag of that name and keeps one of
/// another.
proof fn lemma_tags_step(
    a: Seq<char>,
    inside: Seq<char>,
    to: Seq<char>,
    c: Seq<char>,
    name: Seq<char>,
    by: Seq<char>,
    done: bool,
)
    requires
        is_tag_name(name),
        !a.contains('<'),
        !to.contains('<'),
        has_no_bracket(inside),
        names(inside, name) && !done ==> to == by,
    ensures
        fetch::tag_replaced(marked_around(a, tag_of(inside), to, c, done), name, by)
            == marked_around(
            a,
            tag_of(inside),
            to,
            fetch::tag_replaced(c, name, by),
            done || names(inside, name),
        ),
{
    let tag = tag_of(inside);
    let rest = fetch::tag_replaced(c, name, by);
    if done {
        assert(a + to + c =~= a + (to + c));
        lemma_tags_behind(a, to + c, name, by);
        lemma_tags_behind(to, c, name, by);
        assert(a + (to + rest) =~= a + to + rest);
    } else {
        assert(a + tag + c =~= a + (tag + c));
        lemma_tags_behind(a, tag + c, name, by);
        lemma_opens(inside, c, name);
        let s = tag + c;
        if names(inside, name) {
            let n = inside.len() as int + 1;
            assert forall|i: int| 0 <= i < n implies #[trigger] s[i] != '>' by {
                if i > 0 {
                    assert(s[i] == inside[i - 1]);
                    assert(inside.contains(inside[i - 1]));
                }
            }
            lemma_tag_ends(s, n);
            assert(s.skip(n + 1) =~= c);
            assert(a + (by + rest) =~= a + to + rest);
        } else {
            let tail = inside + seq!['>'];
            assert(s.skip(1) =~= tail + c);
            assert forall|i: int| 0 <= i < tail.len() implies tail[i] != '<' by {
                if i < inside.len() {
                    assert(inside.contains(inside[i]));
                }
            }
            lemma_tags_behind(tail, c, name, by);
            assert(a + (seq![s[0]] + (tail + rest)) =~= a + tag + rest);
        }
    }
}

/// The names of the tags that stand for markdown, and what they stand for.
proof fn lemma_block_names()
    ensures
        is_tag_name("h1"@) && markdown_of("h1"@) == Some("\n\n# "@),
        is_tag_name("h2"@) && markdown_of("h2"@) == Some("\n\n## "@),
        is_tag_name("h3"@) && markdown_of("h3"@) == Some("\n\n### "@),
        is_tag_name("h4"@) && markdown_of("h4"@) == Some("\n\n#### "@),
        is_tag_name("h5"@) && markdown_of("h5"@) == Some("\n\n##### "@),
        is_tag_name("h6"@) && markdown_of("h6"@) == Some("\n\n###### "@),
        is_tag_name("p"@) && markdown_of("p"@) == Some("\n\n"@),
        is_tag_name("br"@) && markdown_of("br"@) == Some("\n"@),
        is_tag_name("li"@) && markdown_of("li"@) == Some("\n- "@),
        is_tag_name("tr"@) && markdown_of("tr"@) == Some("\n"@),
        is_tag_name("td"@) && markdown_of("td"@) == Some("  "@),
        is_tag_name("th"@) && markdown_of("th"@) == Some("  "@),
        is_tag_name("blockquote"@) && markdown_of("blockquote"@) == Some("\n\n> "@),
        is_tag_name("hr"@) && markdown_of("hr"@) == Some("\n\n---\n\n"@),
        is_tag_name("div"@) && markdown_of("div"@) == Some("\n"@),
{
    reveal_strlit("h1");
    reveal_strlit("h2");
    reveal_strlit("h3");
    reveal_strlit("h4");
    reveal_strlit("h5");
    reveal_strlit("h6");
    reveal_strlit("p");
    reveal_strlit("br");
    reveal_strlit("li");
    reveal_strlit("tr");
    reveal_strlit("td");
    reveal_strlit("th");
    reveal_strlit("blockquote");
    reveal_strlit("hr");
    reveal_strlit("div");
    reveal_strlit("\n\n# ");
    reveal_strlit("\n\n## ");
    reveal_strlit("\n\n### ");
    reveal_strlit("\n\n#### ");
    reveal_strlit("\n\n##### ");
    reveal_strlit("\n\n###### ");
    reveal_strlit("\n\n");
    reveal_strlit("\n");
    reveal_strlit("\n- ");
    reveal_strlit("  ");
    reveal_strlit("\n\n> ");
    reveal_strlit("\n\n---\n\n");
    assert(markdown_of("h1"@).unwrap() =~= "\n\n# "@);
    assert(markdown_of("h2"@).unwrap() =~= "\n\n## "@);
    assert(markdown_of("h3"@).unwrap() =~= "\n\n### "@);
    assert(markdown_of("h4"@).unwrap() =~= "\n\n#### "@);
    assert(markdown_of("h5"@).unwrap() =~= "\n\n##### "@);
    assert(markdown_of("h6"@).unwrap() =~= "\n\n###### "@);
    assert("br"@[0] != "p"@[0]);
    assert(markdown_of("p"@).unwrap() =~= "\n\n"@);
    assert(markdown_of("br"@).unwrap() =~= "\n"@);
    assert("tr"@[0] != "p"@[0]);
    assert(markdown_of("tr"@).unwrap() =~= "\n"@);
    assert("div"@.len() == 3);
    assert(markdown_of("div"@).unwrap() =~= "\n"@);
    assert("li"@[0] == 'l' && "br"@[0] == 'b' && "tr"@[0] == 't' && "td"@[0] == 't' && "th"@[0]
        == 't' && "hr"@[0] == 'h');
    assert("td"@[1] == 'd' && "th"@[1] == 'h' && "tr"@[1] == 'r');
    assert(markdown_of("li"@).unwrap() =~= "\n- "@);
    assert(markdown_of("td"@).unwrap() =~= "  "@);
    assert(markdown_of("th"@).unwrap() =~= "  "@);
    assert("blockquote"@.len() == 10);
    assert(markdown_of("blockquote"@).unwrap() =~= "\n\n> "@);
    assert(markdown_of("hr"@).unwrap() =~= "\n\n---\n\n"@);
}

/// The names of the tags that stand for markdown are these.
pub open spec fn is_block(name: Seq<char>) -> bool {
    ||| name == "h1"@
    ||| name == "h2"@
    ||| name == "h3"@
    ||| name == "h4"@
    ||| name == "h5"@
    ||| name == "h6"@
    ||| name == "p"@
    ||| name == "br"@
    ||| name == "li"@
    ||| name == "tr"@
    ||| name == "td"@
    ||| name == "th"@
    ||| name == "blockquote"@
    ||| name == "hr"@
    ||| name == "div"@
}

/// The tag of a block becomes the markdown that it stands for, and other tags are
/// kept for later.
proof fn lemma_marked_around(a: Seq<char>, inside: Seq<char>, to: Seq<char>, c: Seq<char>)
    requires
        !a.contains('<'),
        !to.contains('<'),
        has_no_bracket(inside),
        forall|name: Seq<char>|
            is_block(name) && #[trigger] names(inside, name) ==> markdown_of(name) == Some(to),
    ensures
        fetch::marked(a + tag_of(inside) + c) == marked_around(
            a,
            tag_of(inside),
            to,
            fetch::marked(c),
            exists|name: Seq<char>| is_block(name) && #[trigger] names(inside, name),
        ),
{
    lemma_block_names();
    let d0 = false;
    let c0 = c;
    lemma_tags_step(a, inside, to, c0, "h1"@, "\n\n# "@, d0);
    let d1 = d0 || names(inside, "h1"@);
    let c1 = fetch::tag_replaced(c0, "h1"@, "\n\n# "@);
    lemma_tags_step(a, inside, to, c1, "h2"@, "\n\n## "@, d1);
    let d2 = d1 || names(inside, "h2"@);
    let c2 = fetch::tag_replaced(c1, "h2"@, "\n\n## "@);
    lemma_tags_step(a, inside, to, c2, "h3"@, "\n\n### "@, d2);
    let d3 = d2 || names(inside, "h3"@);
    let c3 = fetch::tag_replaced(c2, "h3"@, "\n\n### "@);
    lemma_tags_step(a, inside, to, c3, "h4"@, "\n\n#### "@, d3);
    let d4 = d3 || names(inside, "h4"@);
    let c4 = fetch::tag_replaced(c3, "h4"@, "\n\n#### "@);
    lemma_tags_step(a, inside, to, c4, "h5"@, "\n\n##### "@, d4);
    let d5 = d4 || names(inside, "h5"@);
    let c5 = fetch::tag_replaced(c4, "h5"@, "\n\n##### "@);
    lemma_tags_step(a, inside, to, c5, "h6"@, "\n\n###### "@, d5);
    let d6 = d5 || names(inside, "h6"@);
    let c6 = fetch::tag_replaced(c5, "h6"@, "\n\n###### "@);
    lemma_tags_step(a, inside, to, c6, "p"@, "\n\n"@, d6);
    let d7 = d6 || names(inside, "p"@);
    let c7 = fetch::tag_replaced(c6, "p"@, "\n\n"@);
    lemma_tags_step(a, inside, to, c7, "br"@, "\n"@, d7);
    let d8 = d7 || names(inside, "br"@);
    let c8 = fetch::tag_replaced(c7, "br"@, "\n"@);
    lemma_tags_step(a, inside, to, c8, "li"@, "\n- "@, d8);
    let d9 = d8 || names(inside, "li"@);
    let c9 = fetch::tag_replaced(c8, "li"@, "\n- "@);
    lemma_tags_step(a, inside, to, c9, "tr"@, "\n"@, d9);
    let d10 = d9 || names(inside, "tr"@);
    let c10 = fetch::tag_replaced(c9, "tr"@, "\n"@);
    lemma_tags_step(a, inside, to, c10, "td"@, "  "@, d10);
    let d11 = d10 || names(inside, "td"@);
    let c11 = fetch::tag_replaced(c10, "td"@, "  "@);
    lemma_tags_step(a, inside, to, c11, "th"@, "  "@, d11);
    let d12 = d11 || names(inside, "th"@);
    let c12 = fetch::tag_replaced(c11, "th"@, "  "@);
    lemma_tags_step(a, inside, to, c12, "blockquote"@, "\n\n> "@, d12);
    let d13 = d12 || names(inside, "blockquote"@);
    let c13 = fetch::tag_replaced(c12, "blockquote"@, "\n\n> "@);
    lemma_tags_step(a, inside, to, c13, "hr"@, "\n\n---\n\n"@, d13);
    let d14 = d13 || names(inside, "hr"@);
    let c14 = fetch::tag_replaced(c13, "hr"@, "\n\n---\n\n"@);
    lemma_tags_step(a, inside, to, c14, "div"@, "\n"@, d14);
    let d15 = d14 || names(inside, "div"@);
    assert(d15 <==> exists|name: Seq<char>| is_block(name) && #[trigger] names(inside, name));
}

/// Text without brackets before the rest of a page is kept.
proof fn lemma_marked_behind(a: Seq<char>, c: Seq<char>)
    requires
        !a.contains('<'),
    ensures
        fetch::marked(a + c) == a + fetch::marked(c),
{
    let c0 = c;
    lemma_tags_behind(a, c0, "h1"@, "\n\n# "@);
    let c1 = fetch::tag_replaced(c0, "h1"@, "\n\n# "@);
    lemma_tags_behind(a, c1, "h2"@, "\n\n## "@);
    let c2 = fetch::tag_replaced(c1, "h2"@, "\n\n## "@);
    lemma_tags_behind(a, c2, "h3"@, "\n\n### "@);
    let c3 = fetch::tag_replaced(c2, "h3"@, "\n\n### "@);
    lemma_tags_behind(a, c3, "h4"@, "\n\n#### "@);
    let c4 = fetch::tag_replaced(c3, "h4"@, "\n\n#### "@);
    lemma_tags_behind(a, c4, "h5"@, "\n\n##### "@);
    let c5 = fetch::tag_replaced(c4, "h5"@, "\n\n##### "@);
    lemma_tags_behind(a, c5, "h6"@, "\n\n###### "@);
    let c6 = fetch::tag_replaced(c5, "h6"@, "\n\n###### "@);
    lemma_tags_behind(a, c6, "p"@, "\n\n"@);
    let c7 = fetch::tag_replaced(c6, "p"@, "\n\n"@);
    lemma_tags_behind(a, c7, "br"@, "\n"@);
    let c8 = fetch::tag_replaced(c7, "br"@, "\n"@);
    lemma_tags_behind(a, c8, "li"@, "\n- "@);
    let c9 = fetch::tag_replaced(c8, "li"@, "\n- "@);
    lemma_tags_behind(a, c9, "tr"@, "\n"@);
    let c10 = fetch::tag_replaced(c9, "tr"@, "\n"@);
    lemma_tags_behind(a, c10, "td"@, "  "@);
    let c11 = fetch::tag_replaced(c10, "td"@, "  "@);
    lemma_tags_behind(a, c11, "th"@, "  "@);
    let c12 = fetch::tag_replaced(c11, "th"@, "  "@);
    lemma_tags_behind(a, c12, "blockquote"@, "\n\n> "@);
    let c13 = fetch::tag_replaced(c12, "blockquote"@, "\n\n> "@);
    lemma_tags_behind(a, c13, "hr"@, "\n\n---\n\n"@);
    let c14 = fetch::tag_replaced(c13, "hr"@, "\n\n---\n\n"@);
    lemma_tags_behind(a, c14, "div"@, "\n"@);
}

/// Text without brackets, and tags that hide nothing, are readable.
proof fn lemma_readable_behind(a: Seq<char>, c: Seq<char>)
    requires
        !a.contains('<'),
    ensures
        fetch::readable(a + c) == a + fetch::readable(c),
{
    let c0 = c;
    lemma_blocks_behind(a, c0, "script"@);
    let c1 = fetch::without_blocks(c0, "script"@);
    lemma_blocks_behind(a, c1, "style"@);
    let c2 = fetch::without_blocks(c1, "style"@);
    lemma_blocks_behind(a, c2, "nav"@);
    let c3 = fetch::without_blocks(c2, "nav"@);
    lemma_blocks_behind(a, c3, "footer"@);
    let c4 = fetch::without_blocks(c3, "footer"@);
    lemma_blocks_behind(a, c4, "header"@);
    let c5 = fetch::without_blocks(c4, "header"@);
    lemma_blocks_behind(a, c5, "aside"@);
    let c6 = fetch::without_blocks(c5, "aside"@);
    lemma_blocks_behind(a, c6, "noscript"@);
}

/// Whether what stands between brackets names no tag that hides its block.
pub open spec fn hides_nothing(inside: Seq<char>) -> bool {
    forall|name: Seq<char>| is_hidden(name) ==> !#[trigger] names(inside, name)
}

proof fn lemma_readable_tag(inside: Seq<char>, c: Seq<char>)
    requires
        has_no_bracket(inside),
        hides_nothing(inside),
    ensures
        fetch::readable(tag_of(inside) + c) == tag_of(inside) + fetch::readable(c),
{
    lemma_hidden_names();
    let c0 = c;
    assert(is_hidden("script"@) && !names(inside, "script"@));
    lemma_blocks_keep_tag(inside, c0, "script"@);
    let c1 = fetch::without_blocks(c0, "script"@);
    assert(is_hidden("style"@) && !names(inside, "style"@));
    lemma_blocks_keep_tag(inside, c1, "style"@);
    let c2 = fetch::without_blocks(c1, "style"@);
    assert(is_hidden("nav"@) && !names(inside, "nav"@));
    lemma_blocks_keep_tag(inside, c2, "nav"@);
    let c3 = fetch::without_blocks(c2, "nav"@);
    assert(is_hidden("footer"@) && !names(inside, "footer"@));
    lemma_blocks_keep_tag(inside, c3, "footer"@);
    let c4 = fetch::without_blocks(c3, "footer"@);
    assert(is_hidden("header"@) && !names(inside, "header"@));
    lemma_blocks_keep_tag(inside, c4, "header"@);
    let c5 = fetch::without_blocks(c4, "header"@);
    assert(is_hidden("aside"@) && !names(inside, "aside"@));
    lemma_blocks_keep_tag(inside, c5, "aside"@);
    let c6 = fetch::without_blocks(c5, "aside"@);
    assert(is_hidden("noscript"@) && !names(inside, "noscript"@));
    lemma_blocks_keep_tag(inside, c6, "noscript"@);
}

/// No block that stands for markdown is hidden.
proof fn lemma_blocks_hide_nothing(inside: Seq<char>, name: Seq<char>)
    requires
        is_block(name),
        names(inside, name),
    ensures
        hides_nothing(inside),
        forall|other: Seq<char>| is_block(other) && #[trigger] names(inside, other) ==> other == name,
{
    lemma_block_names();
    lemma_hidden_names();
    assert forall|other: Seq<char>| is_hidden(other) implies !#[trigger] names(inside, other) by {
        if names(inside, other) {
            lemma_names_one(inside, name, other);
            lemma_hidden_is_no_block(name);
        }
    }
    assert forall|other: Seq<char>| is_block(other) && #[trigger] names(
        inside,
        other,
    ) implies other == name by {
        lemma_names_one(inside, name, other);
    }
}

proof fn lemma_hidden_is_no_block(name: Seq<char>)
    requires
        is_block(name),
    ensures
        !is_hidden(name),
{
    reveal_strlit("script");
    reveal_strlit("style");
    reveal_strlit("nav");
    reveal_strlit("footer");
    reveal_strlit("header");
    reveal_strlit("aside");
    reveal_strlit("noscript");
    reveal_strlit("h1");
    reveal_strlit("h2");
    reveal_strlit("h3");
    reveal_strlit("h4");
    reveal_strlit("h5");
    reveal_strlit("h6");
    reveal_strlit("p");
    reveal_strlit("br");
    reveal_strlit("li");
    reveal_strlit("tr");
    reveal_strlit("td");
    reveal_strlit("th");
    reveal_strlit("blockquote");
    reveal_strlit("hr");
    reveal_strlit("div");
    assert("div"@[0] == 'd' && "nav"@[0] == 'n');
    assert("script"@.len() == 6 && "style"@.len() == 5 && "nav"@.len() == 3 && "footer"@.len() == 6
        && "header"@.len() == 6 && "aside"@.len() == 5 && "noscript"@.len() == 8);
    assert("h1"@.len() == 2 && "h2"@.len() == 2 && "h3"@.len() == 2 && "h4"@.len() == 2
        && "h5"@.len() == 2 && "h6"@.len() == 2 && "p"@.len() == 1 && "br"@.len() == 2
        && "li"@.len() == 2 && "tr"@.len() == 2 && "td"@.len() == 2 && "th"@.len() == 2
        && "blockquote"@.len() == 10 && "hr"@.len() == 2 && "div"@.len() == 3);
}

/// The opening tag of a heading, a paragraph, an item of a list and the like reads
/// as the markdown that stands for it.
pub proof fn block_tags_read_as_markdown(
    a: Seq<char>,
    inside: Seq<char>,
    c: Seq<char>,
    name: Seq<char>,
)
    requires
        !a.contains('<'),
        has_no_bracket(inside),
        is_block(name),
        names(inside, name),
    ensures
        markdown_of(name) is Some,
        fetch::page_text(a + tag_of(inside) + c) == fetch::page_text(
            a + markdown_of(name).unwrap() + c,
        ),
{
    lemma_blocks_hide_nothing(inside, name);
    lemma_markdown(name);
    lemma_tag_reads(a, inside, c, name, markdown_of(name).unwrap());
}

/// The markdown of a block opens no tag.
proof fn lemma_markdown(name: Seq<char>)
    requires
        is_block(name),
    ensures
        markdown_of(name) is Some,
        !markdown_of(name).unwrap().contains('<'),
{
    assert(markdown_of(name) is Some) by {
        lemma_block_names();
    }
    lemma_markdown_opens_none(name);
}

proof fn lemma_markdown_opens_none(name: Seq<char>)
    requires
        markdown_of(name) is Some,
    ensures
        !markdown_of(name).unwrap().contains('<'),
{
    let m = markdown_of(name).unwrap();
    if heading_level(name) > 0 {
        let n = heading_level(name);
        assert forall|i: int| 0 <= i < m.len() implies m[i] != '<' by {
            if 2 <= i < 2 + n {
                assert(m[i] == number_signs(n)[i - 2]);
            }
        }
    }
}

proof fn lemma_tag_reads(
    a: Seq<char>,
    inside: Seq<char>,
    c: Seq<char>,
    name: Seq<char>,
    to: Seq<char>,
)
    requires
        !a.contains('<'),
        !to.contains('<'),
        has_no_bracket(inside),
        hides_nothing(inside),
        is_block(name),
        names(inside, name),
        markdown_of(name) == Some(to),
        forall|other: Seq<char>| is_block(other) && #[trigger] names(inside, other) ==> other == name,
    ensures
        fetch::page_text(a + tag_of(inside) + c) == fetch::page_text(a + to + c),
{
    let tag = tag_of(inside);
    let rest = fetch::readable(c);
    assert(a + tag + c =~= a + (tag + c));
    lemma_readable_behind(a, tag + c);
    lemma_readable_tag(inside, c);
    assert(a + (tag + rest) =~= a + tag + rest);
    lemma_marked_around(a, inside, to, rest);
    let front = a + to;
    assert forall|i: int| 0 <= i < front.len() implies front[i] != '<' by {
        if i < a.len() {
            assert(a.contains(a[i]));
        } else {
            assert(to.contains(to[i - a.len()]));
        }
    }
    lemma_readable_behind(front, c);
    lemma_marked_behind(front, rest);
    assert(fetch::marked(fetch::readable(a + tag + c)) == fetch::marked(
        fetch::readable(front + c),
    ));
}

/// Stripping tags from two texts in a row, the first of which leaves none open.
proof fn lemma_untagged_join(x: Seq<char>, y: Seq<char>, n: int)
    requires
        !fetch::in_tag_at(x, x.len() as int),
        0 <= n <= y.len(),
    ensures
        fetch::in_tag_at(x + y, x.len() + n) == fetch::in_tag_at(y, n),
        fetch::untagged(x + y, x.len() + n) == fetch::untagged(x, x.len() as int)
            + fetch::untagged(y, n),
    decreases n,
{
    if n > 0 {
        lemma_untagged_join(x, y, n - 1);
        assert((x + y)[x.len() + n - 1] == y[n - 1]);
        assert(fetch::untagged(x + y, x.len() + n) =~= fetch::untagged(x, x.len() as int)
            + fetch::untagged(y, n));
    } else {
        lemma_untagged_prefix(x, y, x.len() as int);
        assert(fetch::untagged(x, x.len() as int) + fetch::untagged(y, 0) =~= fetch::untagged(
            x,
            x.len() as int,
        ));
    }
}

proof fn lemma_untagged_prefix(x: Seq<char>, y: Seq<char>, n: int)
    requires
        0 <= n <= x.len(),
    ensures
        fetch::in_tag_at(x + y, n) == fetch::in_tag_at(x, n),
        fetch::untagged(x + y, n) == fetch::untagged(x, n),
    decreases n,
{
    if n > 0 {
        lemma_untagged_prefix(x, y, n - 1);
        assert((x + y)[n - 1] == x[n - 1]);
    }
}

/// Text without opening brackets leaves no tag open.
proof fn lemma_no_tag_open(x: Seq<char>, n: int)
    requires
        !x.contains('<'),
        0 <= n <= x.len(),
    ensures
        !fetch::in_tag_at(x, n),
    decreases n,
{
    if n > 0 {
        lemma_no_tag_open(x, n - 1);
        assert(x.contains(x[n - 1]));
    }
}

/// A pair of brackets is stripped with what stands between them.
proof fn lemma_tag_stripped(inside: Seq<char>, n: int)
    requires
        has_no_bracket(inside),
        1 <= n <= inside.len() + 1,
    ensures
        fetch::in_tag_at(tag_of(inside), n),
        fetch::untagged(tag_of(inside), n) == Seq::<char>::empty(),
    decreases n,
{
    let s = tag_of(inside);
    if n > 1 {
        lemma_tag_stripped(inside, n - 1);
        assert(s[n - 1] == inside[n - 2]);
        assert(inside.contains(inside[n - 2]));
    } else {
        reveal_with_fuel(fetch::untagged, 2);
        assert(s[0] == '<');
    }
}

/// A tag that hides nothing and stands for no markdown leaves no trace, and so does
/// every closing tag that is met: the page reads as if it were not there.
pub proof fn other_tags_leave_no_trace(a: Seq<char>, inside: Seq<char>, c: Seq<char>)
    requires
        !a.contains('<'),
        has_no_bracket(inside),
        hides_nothing(inside),
        forall|name: Seq<char>| is_block(name) ==> !#[trigger] names(inside, name),
    ensures
        fetch::page_text(a + tag_of(inside) + c) == fetch::page_text(a + c),
{
    let tag = tag_of(inside);
    let rest = fetch::readable(c);
    let end = fetch::marked(rest);
    assert(a + tag + c =~= a + (tag + c));
    lemma_readable_behind(a, tag + c);
    lemma_readable_behind(a, c);
    lemma_readable_tag(inside, c);
    assert(a + (tag + rest) =~= a + tag + rest);
    lemma_marked_around(a, inside, Seq::empty(), rest);
    lemma_marked_behind(a, rest);
    let n = tag.len() as int;
    lemma_no_tag_open(a, a.len() as int);
    lemma_tag_stripped(inside, n - 1);
    assert(tag[n - 1] == '>');
    assert(!fetch::in_tag_at(tag, n));
    assert(fetch::untagged(tag, n) == Seq::<char>::empty());
    lemma_untagged_join(tag, end, end.len() as int);
    lemma_untagged_join(a, tag + end, n + end.len());
    lemma_untagged_join(a, end, end.len() as int);
    assert(a + tag + end =~= a + (tag + end));
    assert(fetch::untagged(tag, n) + fetch::untagged(end, end.len() as int) =~= fetch::untagged(
        end,
        end.len() as int,
    ));
}

/// Closing tags are among those that leave no trace.
pub proof fn closing_tags_leave_no_trace(
    a: Seq<char>,
    inside: Seq<char>,
    c: Seq<char>,
    name: Seq<char>,
)
    requires
        !a.contains('<'),
        has_no_bracket(inside),
        closes(inside, name),
    ensures
        fetch::page_text(a + tag_of(inside) + c) == fetch::page_text(a + c),
{
    lemma_hidden_names();
    lemma_block_names();
    assert forall|other: Seq<char>| is_hidden(other) implies !#[trigger] names(inside, other) by {
        lemma_closing_names_none(inside, name, other);
    }
    assert forall|other: Seq<char>| is_block(other) implies !#[trigger] names(inside, other) by {
        lemma_closing_names_none(inside, name, other);
    }
    other_tags_leave_no_trace(a, inside, c);
}

/// A page without brackets and entities reads as it is, laid out.
pub proof fn plain_pages_are_laid_out(html: Seq<char>)
    requires
        has_no_bracket(html),
        !html.contains('&'),
    ensures
        fetch::page_text(html) == fetch::tidied(html),
{
    let none = Seq::<char>::empty();
    assert(html + none =~= html);
    lemma_readable_behind(html, none);
    lemma_marked_behind(html, none);
    lemma_nothing_readable();
    fetch::plain_text_has_no_tags(html, html.len() as int);
    assert(html.take(html.len() as int) =~= html);
    fetch::plain_text_has_no_entities(html);
}

proof fn lemma_nothing_readable()
    ensures
        fetch::readable(Seq::<char>::empty()) == Seq::<char>::empty(),
        fetch::marked(Seq::<char>::empty()) == Seq::<char>::empty(),
{
}

// ---------------------------------------------------------------------------
// Entities
// ---------------------------------------------------------------------------

/// Whether a text has the shape of an entity: an ampersand, then a name, then the one
/// semicolon.
pub open spec fn is_entity_shaped(e: Seq<char>) -> bool {
    &&& e.len() > 2
    &&& e[0] == '&'
    &&& e.last() == ';'
    &&& forall|i: int| 0 < i < e.len() - 1 ==> #[trigger] e[i] != ';' && e[i] != '&'
}

/// The character that an entity stands for, ampersands apart.
pub open spec fn entity_char(e: Seq<char>) -> Option<char> {
    if e == "&lt;"@ {
        Some('<')
    } else if e == "&gt;"@ {
        Some('>')
    } else if e == "&quot;"@ {
        Some('"')
    } else if e == "&#39;"@ || e == "&apos;"@ {
        Some('\'')
    } else if e == "&nbsp;"@ {
        Some(' ')
    } else if e == "&mdash;"@ {
        Some('—')
    } else if e == "&ndash;"@ {
        Some('–')
    } else if e == "&hellip;"@ {
        Some('…')
    } else if e == "&laquo;"@ {
        Some('«')
    } else if e == "&raquo;"@ {
        Some('»')
    } else {
        None
    }
}

/// Text without an ampersand before the rest is kept.
proof fn lemma_replaced_behind(a: Seq<char>, b: Seq<char>, from: Seq<char>, to: Seq<char>)
    requires
        is_entity_shaped(from),
        !a.contains('&'),
    ensures
        text::replaced(a + b, from, to) == a + text::replaced(b, from, to),
    decreases a.len(),
{
    let s = a + b;
    if a.len() > 0 {
        if text::begins_with(s, from) {
            assert(s.subrange(0, from.len() as int)[0] == from[0]);
            assert(a.contains(a[0]));
        }
        let rest = a.skip(1);
        assert forall|i: int| 0 <= i < rest.len() implies rest[i] != '&' by {
            assert(a.contains(a[i + 1]));
        }
        lemma_replaced_behind(rest, b, from, to);
        assert(s.skip(1) =~= rest + b);
        assert(seq![s[0]] + (rest + text::replaced(b, from, to)) =~= a + text::replaced(
            b,
            from,
            to,
        ));
    } else {
        assert(s =~= b);
        assert(a + text::replaced(b, from, to) =~= text::replaced(b, from, to));
    }
}

/// An entity, decoded or not, with text around it.
spec fn decoded_around(
    a: Seq<char>,
    e: Seq<char>,
    to: Seq<char>,
    b: Seq<char>,
    done: bool,
) -> Seq<char> {
    if done {
        a + to + b
    } else {
        a + e + b
    }
}

/// Decoding one entity decodes it and keeps another.
proof fn lemma_decoded_step(
    a: Seq<char>,
    e: Seq<char>,
    to: Seq<char>,
    b: Seq<char>,
    from: Seq<char>,
    by: Seq<char>,
    done: bool,
)
    requires
        is_entity_shaped(from),
        is_entity_shaped(e),
        !a.contains('&'),
        !to.contains('&'),
        e == from && !done ==> to == by,
    ensures
        text::replaced(decoded_around(a, e, to, b, done), from, by) == decoded_around(
            a,
            e,
            to,
            text::replaced(b, from, by),
            done || e == from,
        ),
{
    let rest = text::replaced(b, from, by);
    if done {
        assert(a + to + b =~= a + (to + b));
        lemma_replaced_behind(a, to + b, from, by);
        lemma_replaced_behind(to, b, from, by);
        assert(a + (to + rest) =~= a + to + rest);
    } else {
        let s = e + b;
        assert(a + e + b =~= a + s);
        lemma_replaced_behind(a, s, from, by);
        let n = from.len() as int;
        let m = e.len() as int;
        if text::begins_with(s, from) {
            assert(s.subrange(0, n) == from);
            if n < m {
                assert(s.subrange(0, n)[n - 1] == from[n - 1]);
                assert(s[n - 1] == e[n - 1]);
                assert(false);
            }
            if m < n {
                assert(s.subrange(0, n)[m - 1] == from[m - 1]);
                assert(s[m - 1] == e[m - 1]);
                assert(false);
            }
            assert(s.subrange(0, n) =~= e);
        }
        if e == from {
            assert(s.subrange(0, n) =~= from);
            assert(text::begins_with(s, from));
            assert(s.skip(n) =~= b);
            assert(a + (by + rest) =~= a + to + rest);
        } else {
            let tail = e.skip(1);
            assert(s.skip(1) =~= tail + b);
            assert forall|i: int| 0 <= i < tail.len() implies tail[i] != '&' by {
                assert(tail[i] == e[i + 1]);
            }
            lemma_replaced_behind(tail, b, from, by);
            assert(a + (seq![s[0]] + (tail + rest)) =~= a + e + rest);
        }
    }
}

proof fn lemma_entities_shaped()
    ensures
        is_entity_shaped("&amp;"@),
        is_entity_shaped("&lt;"@),
        is_entity_shaped("&gt;"@),
        is_entity_shaped("&quot;"@),
        is_entity_shaped("&#39;"@),
        is_entity_shaped("&apos;"@),
        is_entity_shaped("&nbsp;"@),
        is_entity_shaped("&mdash;"@),
        is_entity_shaped("&ndash;"@),
        is_entity_shaped("&hellip;"@),
        is_entity_shaped("&laquo;"@),
        is_entity_shaped("&raquo;"@),
{
    reveal_strlit("&amp;");
    reveal_strlit("&lt;");
    reveal_strlit("&gt;");
    reveal_strlit("&quot;");
    reveal_strlit("&#39;");
    reveal_strlit("&apos;");
    reveal_strlit("&nbsp;");
    reveal_strlit("&mdash;");
    reveal_strlit("&ndash;");
    reveal_strlit("&hellip;");
    reveal_strlit("&laquo;");
    reveal_strlit("&raquo;");
}

/// What the entities stand for, as it is put in their place.
proof fn lemma_entity_chars(e: Seq<char>)
    requires
        entity_char(e) is Some,
    ensures
        ({
            let to = seq![entity_char(e).unwrap()];
            &&& e != "&amp;"@
            &&& e == "&lt;"@ ==> to == "<"@
            &&& e == "&gt;"@ ==> to == ">"@
            &&& e == "&quot;"@ ==> to == "\""@
            &&& e == "&#39;"@ ==> to == "'"@
            &&& e == "&apos;"@ ==> to == "'"@
            &&& e == "&nbsp;"@ ==> to == " "@
            &&& e == "&mdash;"@ ==> to == "—"@
            &&& e == "&ndash;"@ ==> to == "–"@
            &&& e == "&hellip;"@ ==> to == "…"@
            &&& e == "&laquo;"@ ==> to == "«"@
            &&& e == "&raquo;"@ ==> to == "»"@
            &&& !to.contains('&')
        }),
{
    reveal_strlit("&amp;");
    reveal_strlit("&lt;");
    reveal_strlit("&gt;");
    reveal_strlit("&quot;");
    reveal_strlit("&#39;");
    reveal_strlit("&apos;");
    reveal_strlit("&nbsp;");
    reveal_strlit("&mdash;");
    reveal_strlit("&ndash;");
    reveal_strlit("&hellip;");
    reveal_strlit("&laquo;");
    reveal_strlit("&raquo;");
    reveal_strlit("<");
    reveal_strlit(">");
    reveal_strlit("\"");
    reveal_strlit("'");
    reveal_strlit(" ");
    reveal_strlit("—");
    reveal_strlit("–");
    reveal_strlit("…");
    reveal_strlit("«");
    reveal_strlit("»");
    let to = seq![entity_char(e).unwrap()];
    assert("&lt;"@[1] == 'l' && "&gt;"@[1] == 'g' && "&lt;"@.len() == 4 && "&gt;"@.len() == 4);
    assert("&quot;"@.len() == 6 && "&quot;"@[1] == 'q');
    assert("&#39;"@.len() == 5 && "&#39;"@[1] == '#');
    assert("&amp;"@.len() == 5 && "&amp;"@[1] == 'a');
    assert("&apos;"@.len() == 6 && "&apos;"@[1] == 'a');
    assert("&nbsp;"@.len() == 6 && "&nbsp;"@[1] == 'n');
    assert("&mdash;"@.len() == 7 && "&mdash;"@[1] == 'm');
    assert("&ndash;"@.len() == 7 && "&ndash;"@[1] == 'n');
    assert("&hellip;"@.len() == 8);
    assert("&laquo;"@.len() == 7 && "&laquo;"@[1] == 'l');
    assert("&raquo;"@.len() == 7 && "&raquo;"@[1] == 'r');
    assert(e == "&lt;"@ ==> to =~= "<"@);
    assert(e == "&gt;"@ ==> to =~= ">"@);
    assert(e == "&quot;"@ ==> to =~= "\""@);
    assert(e == "&#39;"@ ==> to =~= "'"@);
    assert(e == "&apos;"@ ==> to =~= "'"@);
    assert(e == "&nbsp;"@ ==> to =~= " "@);
    assert(e == "&mdash;"@ ==> to =~= "—"@);
    assert(e == "&ndash;"@ ==> to =~= "–"@);
    assert(e == "&hellip;"@ ==> to =~= "…"@);
    assert(e == "&laquo;"@ ==> to =~= "«"@);
    assert(e == "&raquo;"@ ==> to =~= "»"@);
}

/// An entity is decoded to the character that it stands for, wherever it is met.
pub proof fn entities_are_decoded(a: Seq<char>, e: Seq<char>, b: Seq<char>)
    requires
        !a.contains('&'),
        entity_char(e) is Some,
    ensures
        fetch::decoded(a + e + b) == a + seq![entity_char(e).unwrap()] + fetch::decoded(b),
{
    let to = seq![entity_char(e).unwrap()];
    lemma_entities_shaped();
    lemma_entity_chars(e);
    let d0 = false;
    let b0 = b;
    lemma_decoded_step(a, e, to, b0, "&amp;"@, "&"@, d0);
    let d1 = d0 || e == "&amp;"@;
    let b1 = text::replaced(b0, "&amp;"@, "&"@);
    lemma_decoded_step(a, e, to, b1, "&lt;"@, "<"@, d1);
    let d2 = d1 || e == "&lt;"@;
    let b2 = text::replaced(b1, "&lt;"@, "<"@);
    lemma_decoded_step(a, e, to, b2, "&gt;"@, ">"@, d2);
    let d3 = d2 || e == "&gt;"@;
    let b3 = text::replaced(b2, "&gt;"@, ">"@);
    lemma_decoded_step(a, e, to, b3, "&quot;"@, "\""@, d3);
    let d4 = d3 || e == "&quot;"@;
    let b4 = text::replaced(b3, "&quot;"@, "\""@);
    lemma_decoded_step(a, e, to, b4, "&#39;"@, "'"@, d4);
    let d5 = d4 || e == "&#39;"@;
    let b5 = text::replaced(b4, "&#39;"@, "'"@);
    lemma_decoded_step(a, e, to, b5, "&apos;"@, "'"@, d5);
    let d6 = d5 || e == "&apos;"@;
    let b6 = text::replaced(b5, "&apos;"@, "'"@);
    lemma_decoded_step(a, e, to, b6, "&nbsp;"@, " "@, d6);
    let d7 = d6 || e == "&nbsp;"@;
    let b7 = text::replaced(b6, "&nbsp;"@, " "@);
    lemma_decoded_step(a, e, to, b7, "&mdash;"@, "—"@, d7);
    let d8 = d7 || e == "&mdash;"@;
    let b8 = text::replaced(b7, "&mdash;"@, "—"@);
    lemma_decoded_step(a, e, to, b8, "&ndash;"@, "–"@, d8);
    let d9 = d8 || e == "&ndash;"@;
    let b9 = text::replaced(b8, "&ndash;"@, "–"@);
    lemma_decoded_step(a, e, to, b9, "&hellip;"@, "…"@, d9);
    let d10 = d9 || e == "&hellip;"@;
    let b10 = text::replaced(b9, "&hellip;"@, "…"@);
    lemma_decoded_step(a, e, to, b10, "&laquo;"@, "«"@, d10);
    let d11 = d10 || e == "&laquo;"@;
    let b11 = text::replaced(b10, "&laquo;"@, "«"@);
    lemma_decoded_step(a, e, to, b11, "&raquo;"@, "»"@, d11);
}

/// Text that holds no semicolon holds no entity.
proof fn lemma_nothing_decoded(s: Seq<char>, from: Seq<char>, to: Seq<char>)
    requires
        is_entity_shaped(from),
        !s.contains(';'),
    ensures
        text::replaced(s, from, to) == s,
    decreases s.len(),
{
    if s.len() > 0 {
        let n = from.len() as int;
        if text::begins_with(s, from) {
            assert(s.subrange(0, n)[n - 1] == from[n - 1]);
            assert(s.contains(s[n - 1]));
        }
        let rest = s.skip(1);
        assert forall|i: int| 0 <= i < rest.len() implies rest[i] != ';' by {
            assert(s.contains(s[i + 1]));
        }
        lemma_nothing_decoded(rest, from, to);
        assert(seq![s[0]] + rest =~= s);
    }
}

/// An escaped ampersand is decoded to an ampersand, where no entity follows it.
pub proof fn ampersands_are_decoded(a: Seq<char>, b: Seq<char>)
    requires
        !a.contains('&'),
        !a.contains(';'),
        !b.contains(';'),
    ensures
        fetch::decoded(a + "&amp;"@ + b) == a + seq!['&'] + b,
{
    lemma_entities_shaped();
    reveal_strlit("&amp;");
    reveal_strlit("&");
    let e = "&amp;"@;
    let s = e + b;
    assert(a + e + b =~= a + s);
    lemma_replaced_behind(a, s, e, "&"@);
    assert(s.subrange(0, e.len() as int) =~= e);
    assert(s.skip(e.len() as int) =~= b);
    lemma_nothing_decoded(b, e, "&"@);
    let t = a + seq!['&'] + b;
    assert(a + ("&"@ + b) =~= t);
    assert forall|i: int| 0 <= i < t.len() implies t[i] != ';' by {
        if i < a.len() {
            assert(a.contains(a[i]));
        } else if i > a.len() {
            assert(b.contains(b[i - a.len() - 1]));
        }
    }
    lemma_nothing_decoded(t, "&lt;"@, "<"@);
    lemma_nothing_decoded(t, "&gt;"@, ">"@);
    lemma_nothing_decoded(t, "&quot;"@, "\""@);
    lemma_nothing_decoded(t, "&#39;"@, "'"@);
    lemma_nothing_decoded(t, "&apos;"@, "'"@);
    lemma_nothing_decoded(t, "&nbsp;"@, " "@);
    lemma_nothing_decoded(t, "&mdash;"@, "—"@);
    lemma_nothing_decoded(t, "&ndash;"@, "–"@);
    lemma_nothing_decoded(t, "&hellip;"@, "…"@);
    lemma_nothing_decoded(t, "&laquo;"@, "«"@);
    lemma_nothing_decoded(t, "&raquo;"@, "»"@);
}

// ---------------------------------------------------------------------------
// Titles
// ---------------------------------------------------------------------------

/// The title of a page is what stands in its first title element, trimmed and
/// decoded; a blank one is none.
pub proof fn title_is_what_its_element_holds(
    a: Seq<char>,
    inside: Seq<char>,
    title: Seq<char>,
    end: Seq<char>,
    c: Seq<char>,
)
    requires
        !a.contains('<'),
        has_no_bracket(inside),
        names(inside, "title"@),
        has_no_closing(title, "title"@),
        closes(end, "title"@),
    ensures
        ({
            let html = a + tag_of(inside) + title + tag_of(end) + c;
            fetch::page_title(html) == if text::is_blank(title) {
                None
            } else {
                Some(fetch::decoded(text::trimmed(title)))
            }
        }),
{
    reveal_strlit("title");
    reveal_strlit(">");
    reveal_strlit("</title>");
    let name = "title"@;
    assert(is_tag_name(name));
    let head = tag_of(inside);
    let rest = head + title + tag_of(end) + c;
    let html = a + head + title + tag_of(end) + c;
    let low = text::ascii_lowered(html);
    let k = a.len() as int;
    assert(html =~= a + rest);
    assert(rest =~= head + (title + tag_of(end) + c));
    lemma_opens(inside, title + tag_of(end) + c, name);
    assert(html.skip(k) =~= rest);
    lemma_first_opening(html, name, 0, k);
    let at = k + inside.len() + 1;
    assert(html[at] == '>');
    assert(text::occurs_at(html, ">"@, at)) by {
        assert(html.subrange(at, at + 1) =~= ">"@);
    }
    assert forall|j: int| k <= j < at implies !text::occurs_at(html, ">"@, j) by {
        if text::occurs_at(html, ">"@, j) {
            assert(html.subrange(j, j + 1)[0] == '>');
            if j > k {
                assert(html[j] == inside[j - k - 1]);
                assert(inside.contains(inside[j - k - 1]));
            }
        }
    }
    text::lemma_find_from(html, ">"@, k);
    assert(text::find_from(html, ">"@, k) == Some(at));
    let from = at + 1;
    let close = "</title>"@;
    assert(close =~= fetch::close_of(name));
    lemma_first_closing(inside, title, end, c, name);
    let lr = text::ascii_lowered(rest);
    let stop = from + title.len();
    text::lemma_find_from(lr, close, 0);
    assert(text::find_in(lr, close) == Some((head + title).len() as int));
    assert forall|j: int| from <= j <= stop implies text::occurs_at(low, close, j)
        == text::occurs_at(lr, close, j - k) by {
        if j + close.len() <= low.len() {
            assert(low.subrange(j, j + close.len()) =~= lr.subrange(j - k, j - k + close.len()));
        }
    }
    text::lemma_find_from(low, close, from);
    assert(text::occurs_at(lr, close, stop - k));
    assert(text::occurs_at(low, close, stop));
    assert(text::find_from(low, close, from) == Some(stop));
    assert(html.subrange(from, stop) =~= title);
    text::lemma_trimmed_blank(title);
}

/// The first place at which a tag opens, behind text without brackets.
proof fn lemma_first_opening(s: Seq<char>, name: Seq<char>, i: int, k: int)
    requires
        0 <= i <= k < s.len(),
        forall|j: int| i <= j < k ==> #[trigger] s[j] != '<',
        fetch::opens(s.skip(k), name),
    ensures
        fetch::opening_from(s, name, i) == Some(k),
    decreases k - i,
{
    if i < k {
        if fetch::opens(s.skip(i), name) {
            lemma_opens_at_bracket(s.skip(i), name);
            assert(s[i] != '<');
        }
        lemma_first_opening(s, name, i + 1, k);
    }
}

/// A page without a tag has no title.
pub proof fn pages_without_tags_have_no_title(html: Seq<char>)
    requires
        !html.contains('<'),
    ensures
        fetch::page_title(html) is None,
{
    lemma_no_opening_from(html, "title"@, 0);
}

proof fn lemma_no_opening_from(s: Seq<char>, name: Seq<char>, i: int)
    requires
        !s.contains('<'),
        0 <= i <= s.len(),
    ensures
        fetch::opening_from(s, name, i) is None,
    decreases s.len() - i,
{
    if i < s.len() {
        if fetch::opens(s.skip(i), name) {
            lemma_opens_at_bracket(s.skip(i), name);
            assert(s.contains(s[i]));
        }
        lemma_no_opening_from(s, name, i + 1);
    }
}

// ---------------------------------------------------------------------------
// Stored pages
// ---------------------------------------------------------------------------

proof fn lemma_replaced_lacks(s: Seq<char>, from: Seq<char>, to: Seq<char>, c: char)
    requires
        !s.contains(c),
        !to.contains(c),
    ensures
        !text::replaced(s, from, to).contains(c),
    decreases s.len(),
{
    let r = text::replaced(s, from, to);
    if from.len() > 0 && s.len() > 0 {
        let k = if text::begins_with(s, from) {
            from.len() as int
        } else {
            1
        };
        let front = if text::begins_with(s, from) {
            to
        } else {
            seq![s[0]]
        };
        let rest = s.skip(k);
        assert forall|i: int| 0 <= i < rest.len() implies #[trigger] rest[i] != c by {
            assert(s.contains(s[i + k]));
        }
        lemma_replaced_lacks(rest, from, to, c);
        let tail = text::replaced(rest, from, to);
        if r.contains(c) {
            let i = choose|i: int| 0 <= i < r.len() && r[i] == c;
            assert(s.contains(s[0]));
            if i < front.len() {
                assert(front.contains(front[i]));
            } else {
                assert(tail.contains(tail[i - front.len()]));
            }
        }
    }
}

/// A line feed stands before each of the three fields only.
proof fn lemma_no_mark(title: Seq<char>, url: Seq<char>, at: Seq<char>, i: int)
    requires
        !title.contains('\n'),
        !url.contains('\n'),
        !at.contains('\n'),
    ensures
        !text::occurs_at(
            "\ntitle: \""@ + title + "\"\nsource: \""@ + url + "\"\nfetched_at: \""@ + at + "\""@,
            "\n---"@,
            i,
        ),
{
    reveal_strlit("\ntitle: \"");
    reveal_strlit("\"\nsource: \"");
    reveal_strlit("\"\nfetched_at: \"");
    reveal_strlit("\"");
    reveal_strlit("\n---");
    let a = "\ntitle: \""@;
    let b = "\"\nsource: \""@;
    let c = "\"\nfetched_at: \""@;
    let yaml = a + title + b + url + c + at + "\""@;
    if text::occurs_at(yaml, "\n---"@, i) {
        let part = yaml.subrange(i, i + 4);
        assert(part[0] == '\n');
        assert(part[1] == '-');
        assert(yaml[i] == '\n');
        assert(yaml[i + 1] == '-');
        let t = a.len() as int;
        let s = t + title.len() as int;
        let u = s + b.len();
        let f = u + url.len() as int;
        let w = f + c.len();
        if i < t {
            assert(yaml[i] == a[i]);
            assert(yaml[1] == a[1]);
        } else if i < s {
            assert(yaml[i] == title[i - t]);
            assert(title.contains(title[i - t]));
        } else if i < u {
            assert(yaml[i] == b[i - s]);
            assert(yaml[s + 2] == b[2]);
        } else if i < f {
            assert(yaml[i] == url[i - u]);
            assert(url.contains(url[i - u]));
        } else if i < w {
            assert(yaml[i] == c[i - f]);
            assert(yaml[f + 2] == c[2]);
        } else if i < w + at.len() {
            assert(yaml[i] == at[i - w]);
            assert(at.contains(at[i - w]));
        }
    }
}

/// A page is stored as a document whose frontmatter holds its title, its address and when
/// it was fetched, and whose body is its title as a heading and then its text; quotation
/// marks in the title are escaped.
pub proof fn pages_are_stored_as_documents(
    title: Seq<char>,
    url: Seq<char>,
    at: Seq<char>,
    body: Seq<char>,
)
    requires
        !title.contains('\n'),
        !url.contains('\n'),
        !at.contains('\n'),
    ensures
        document::frontmatter_split(fetch::page_document(title, url, at, body)) == Some(
            (
                "\ntitle: \""@ + text::replaced(title, "\""@, "\\\""@) + "\"\nsource: \""@ + url
                    + "\"\nfetched_at: \""@ + at + "\""@,
                "\n# "@ + title + "\n\n"@ + body,
            ),
        ),
        document::body_of(fetch::page_document(title, url, at, body)) == "\n# "@ + title + "\n\n"@
            + body,
{
    reveal_strlit("---\ntitle: \"");
    reveal_strlit("---");
    reveal_strlit("\ntitle: \"");
    reveal_strlit("\"\n---\n\n# ");
    reveal_strlit("\"");
    reveal_strlit("\\\"");
    reveal_strlit("\n---\n");
    reveal_strlit("\n# ");
    let escaped = text::replaced(title, "\""@, "\\\""@);
    assert(!"\\\""@.contains('\n'));
    lemma_replaced_lacks(title, "\""@, "\\\""@, '\n');
    let yaml = "\ntitle: \""@ + escaped + "\"\nsource: \""@ + url + "\"\nfetched_at: \""@ + at
        + "\""@;
    let rest = "\n# "@ + title + "\n\n"@ + body;
    assert forall|i: int| !#[trigger] text::occurs_at(yaml, "\n---"@, i) by {
        lemma_no_mark(escaped, url, at, i);
    }
    assert("---\ntitle: \""@ =~= "---"@ + "\ntitle: \""@);
    assert("\"\n---\n\n# "@ =~= "\""@ + "\n---\n"@ + "\n# "@);
    assert(fetch::page_document(title, url, at, body) =~= "---"@ + yaml + "\n---\n"@ + rest);
    document::frontmatter_stands_between_marks(yaml, rest);
}

} // verus!
