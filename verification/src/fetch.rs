//! Web pages as markdown: the title and the readable text of an HTML page, and
//! the document that a fetched page is stored as.

use vstd::prelude::*;

use crate::document;
use crate::text;

verus! {

// ---------------------------------------------------------------------------
// Entities
// ---------------------------------------------------------------------------

/// `s` with the common HTML entities decoded, one after the other.
pub open spec fn decoded(s: Seq<char>) -> Seq<char> {
    let t = s;
    let t = text::replaced(t, "&amp;"@, "&"@);
    let t = text::replaced(t, "&lt;"@, "<"@);
    let t = text::replaced(t, "&gt;"@, ">"@);
    let t = text::replaced(t, "&quot;"@, "\""@);
    let t = text::replaced(t, "&#39;"@, "'"@);
    let t = text::replaced(t, "&apos;"@, "'"@);
    let t = text::replaced(t, "&nbsp;"@, " "@);
    let t = text::replaced(t, "&mdash;"@, "—"@);
    let t = text::replaced(t, "&ndash;"@, "–"@);
    let t = text::replaced(t, "&hellip;"@, "…"@);
    let t = text::replaced(t, "&laquo;"@, "«"@);
    let t = text::replaced(t, "&raquo;"@, "»"@);
    t
}

/// Decodes the common HTML entities.
pub fn decode_entities(s: &[char]) -> (r: Vec<char>)
    ensures
        r@ == decoded(s@),
{
    let t = vstd::slice::slice_to_vec(s);
    let t = text::replace(t.as_slice(), "&amp;", "&");
    let t = text::replace(t.as_slice(), "&lt;", "<");
    let t = text::replace(t.as_slice(), "&gt;", ">");
    let t = text::replace(t.as_slice(), "&quot;", "\"");
    let t = text::replace(t.as_slice(), "&#39;", "'");
    let t = text::replace(t.as_slice(), "&apos;", "'");
    let t = text::replace(t.as_slice(), "&nbsp;", " ");
    let t = text::replace(t.as_slice(), "&mdash;", "—");
    let t = text::replace(t.as_slice(), "&ndash;", "–");
    let t = text::replace(t.as_slice(), "&hellip;", "…");
    let t = text::replace(t.as_slice(), "&laquo;", "«");
    let t = text::replace(t.as_slice(), "&raquo;", "»");
    t
}

// ---------------------------------------------------------------------------
// Blocks
// ---------------------------------------------------------------------------

/// The start of an opening tag.
pub open spec fn open_of(tag: Seq<char>) -> Seq<char> {
    seq!['<'] + tag
}

/// A closing tag.
pub open spec fn close_of(tag: Seq<char>) -> Seq<char> {
    seq!['<', '/'] + tag + seq!['>']
}

/// Whether the name of a tag ends before the character.
pub open spec fn ends_name(c: char) -> bool {
    c == '>' || c == '/' || text::is_white(c)
}

/// Whether `s` begins with an opening tag of the given name, in whatever letter
/// case and with whatever attributes.
pub open spec fn opens(s: Seq<char>, tag: Seq<char>) -> bool {
    &&& text::begins_with(text::ascii_lowered(s), open_of(tag))
    &&& s.len() > open_of(tag).len()
    &&& ends_name(s[open_of(tag).len() as int])
}

/// The length of the tag that begins `s`: up to and with the first closing
/// bracket, or up to the end of the text if there is none.
pub open spec fn tag_len(s: Seq<char>) -> nat
    decreases s.len(),
{
    if s.len() == 0 {
        0
    } else if s[0] == '>' {
        1
    } else {
        1 + tag_len(s.skip(1))
    }
}

/// A tag is not empty and ends within the text.
pub proof fn lemma_tag_len(s: Seq<char>)
    ensures
        tag_len(s) <= s.len(),
        s.len() > 0 ==> tag_len(s) > 0,
    decreases s.len(),
{
    if s.len() > 0 {
        lemma_tag_len(s.skip(1));
    }
}

/// Whether an opening tag begins at index `i`; `lower` is `s` in lower case, and
/// `open` the start of the tag.
fn opens_at(
    s: &[char],
    lower: &[char],
    open: &[char],
    i: usize,
    Ghost(tag): Ghost<Seq<char>>,
) -> (r: bool)
    requires
        i <= s@.len(),
        lower@ == text::ascii_lowered(s@),
        open@ == open_of(tag),
    ensures
        r == opens(s@.skip(i as int), tag),
{
    let ghost rest = s@.skip(i as int);
    let ghost low = text::ascii_lowered(rest);
    let n: usize = s.len();
    let m: usize = open.len();
    assert(low =~= lower@.skip(i as int));
    assert(i + m <= n ==> lower@.subrange(i as int, i + m) =~= low.subrange(0, m as int));
    if !text::stands_at(lower, open, i) {
        return false;
    }
    assert(text::begins_with(low, open@));
    if m >= n - i {
        return false;
    }
    let c = s[i + m];
    assert(c == rest[m as int]);
    c == '>' || c == '/' || text::white(c)
}

/// Where the tag that begins at index `i` ends.
fn tag_end(s: &[char], i: usize) -> (r: usize)
    requires
        i <= s@.len(),
    ensures
        r == i + tag_len(s@.skip(i as int)),
        r <= s@.len(),
        i < s@.len() ==> i < r,
{
    let n: usize = s.len();
    let mut j: usize = i;
    proof {
        lemma_tag_len(s@.skip(i as int));
    }
    while j < n
        invariant
            i <= j <= n == s@.len(),
            i + tag_len(s@.skip(i as int)) == j + tag_len(s@.skip(j as int)),
            i < n ==> tag_len(s@.skip(i as int)) > 0,
        decreases n - j,
    {
        assert(s@.skip(j as int)[0] == s@[j as int]);
        assert(s@.skip(j as int).skip(1) =~= s@.skip(j + 1));
        if s[j] == '>' {
            return j + 1;
        }
        j += 1;
    }
    j
}

/// `s` without the blocks of a tag: a block begins where the tag opens and ends
/// behind the next closing tag, or with the text if there is none.
pub open spec fn without_blocks(s: Seq<char>, tag: Seq<char>) -> Seq<char>
    decreases s.len(),
{
    if s.len() == 0 {
        s
    } else if opens(s, tag) {
        match text::find_in(text::ascii_lowered(s), close_of(tag)) {
            Some(end) => {
                proof {
                    text::lemma_find_from(text::ascii_lowered(s), close_of(tag), 0);
                }
                without_blocks(s.skip(end + close_of(tag).len()), tag)
            },
            None => Seq::empty(),
        }
    } else {
        seq![s[0]] + without_blocks(s.skip(1), tag)
    }
}

/// Removes everything between `<tag ...>` and `</tag>` (case-insensitive).
pub fn remove_block_tag(html: &[char], tag: &str) -> (r: Vec<char>)
    ensures
        r@ == without_blocks(html@, tag@),
{
    let lower = text::lower_ascii(html);
    let name = text::chars_of(tag);
    let mut open: Vec<char> = Vec::new();
    open.push('<');
    text::extend_chars(&mut open, name.as_slice());
    assert(open@ =~= open_of(tag@));
    let mut close: Vec<char> = Vec::new();
    close.push('<');
    close.push('/');
    text::extend_chars(&mut close, name.as_slice());
    close.push('>');
    assert(close@ =~= close_of(tag@));
    let n: usize = html.len();
    let mut out: Vec<char> = Vec::new();
    let mut i: usize = 0;
    assert(html@.skip(0) =~= html@);
    assert(out@ + without_blocks(html@, tag@) =~= without_blocks(html@, tag@));
    while i < n
        invariant
            i <= n == html@.len(),
            lower@ == text::ascii_lowered(html@),
            open@ == open_of(tag@),
            close@ == close_of(tag@),
            out@ + without_blocks(html@.skip(i as int), tag@) == without_blocks(html@, tag@),
        decreases n - i,
    {
        let ghost rest = html@.skip(i as int);
        let ghost low = text::ascii_lowered(rest);
        assert(low =~= lower@.skip(i as int));
        proof {
            text::lemma_find_shift(lower@, close@, i as int, 0);
        }
        let ghost before = out@;
        if opens_at(html, lower.as_slice(), open.as_slice(), i, Ghost(tag@)) {
            match text::find_after(lower.as_slice(), close.as_slice(), i) {
                Some(end) => {
                    let next: usize = end + close.len();
                    assert(rest.skip(next - i) =~= html@.skip(next as int));
                    i = next;
                },
                None => {
                    i = n;
                    assert(html@.skip(n as int) =~= Seq::empty());
                    assert(without_blocks(html@.skip(n as int), tag@) =~= Seq::empty());
                },
            }
        } else {
            out.push(html[i]);
            assert(rest.skip(1) =~= html@.skip(i + 1));
            assert(before + without_blocks(rest, tag@) =~= out@ + without_blocks(
                html@.skip(i + 1),
                tag@,
            ));
            i += 1;
        }
    }
    assert(out@ + without_blocks(html@.skip(n as int), tag@) =~= out@);
    out
}

/// `s` with every opening tag of the given name replaced by `to`, together with
/// its attributes.
pub open spec fn tag_replaced(s: Seq<char>, tag: Seq<char>, to: Seq<char>) -> Seq<char>
    decreases s.len(),
{
    if s.len() == 0 {
        s
    } else if opens(s, tag) {
        proof {
            lemma_tag_len(s);
        }
        to + tag_replaced(s.skip(tag_len(s) as int), tag, to)
    } else {
        seq![s[0]] + tag_replaced(s.skip(1), tag, to)
    }
}

/// Replaces every opening tag of the given name by `to`.
pub fn replace_tag(s: &[char], tag: &str, to: &str) -> (r: Vec<char>)
    ensures
        r@ == tag_replaced(s@, tag@, to@),
{
    let lower = text::lower_ascii(s);
    let name = text::chars_of(tag);
    let mut open: Vec<char> = Vec::new();
    open.push('<');
    text::extend_chars(&mut open, name.as_slice());
    assert(open@ =~= open_of(tag@));
    let t = text::chars_of(to);
    let n: usize = s.len();
    let mut out: Vec<char> = Vec::new();
    let mut i: usize = 0;
    assert(s@.skip(0) =~= s@);
    assert(out@ + tag_replaced(s@, tag@, to@) =~= tag_replaced(s@, tag@, to@));
    while i < n
        invariant
            i <= n == s@.len(),
            lower@ == text::ascii_lowered(s@),
            open@ == open_of(tag@),
            t@ == to@,
            out@ + tag_replaced(s@.skip(i as int), tag@, to@) == tag_replaced(s@, tag@, to@),
        decreases n - i,
    {
        let ghost rest = s@.skip(i as int);
        let ghost before = out@;
        if opens_at(s, lower.as_slice(), open.as_slice(), i, Ghost(tag@)) {
            let next: usize = tag_end(s, i);
            text::extend_chars(&mut out, t.as_slice());
            assert(rest.skip(next - i) =~= s@.skip(next as int));
            assert(before + tag_replaced(rest, tag@, to@) =~= out@ + tag_replaced(
                s@.skip(next as int),
                tag@,
                to@,
            ));
            i = next;
        } else {
            out.push(s[i]);
            assert(rest.skip(1) =~= s@.skip(i + 1));
            assert(before + tag_replaced(rest, tag@, to@) =~= out@ + tag_replaced(
                s@.skip(i + 1),
                tag@,
                to@,
            ));
            i += 1;
        }
    }
    assert(out@ + tag_replaced(s@.skip(n as int), tag@, to@) =~= out@);
    out
}

/// `s` without the blocks that hold no readable text.
pub open spec fn readable(s: Seq<char>) -> Seq<char> {
    let t = s;
    let t = without_blocks(t, "script"@);
    let t = without_blocks(t, "style"@);
    let t = without_blocks(t, "nav"@);
    let t = without_blocks(t, "footer"@);
    let t = without_blocks(t, "header"@);
    let t = without_blocks(t, "aside"@);
    let t = without_blocks(t, "noscript"@);
    t
}

/// Removes the blocks that hold no readable text.
fn keep_readable(s: &[char]) -> (r: Vec<char>)
    ensures
        r@ == readable(s@),
{
    let t = vstd::slice::slice_to_vec(s);
    let t = remove_block_tag(t.as_slice(), "script");
    let t = remove_block_tag(t.as_slice(), "style");
    let t = remove_block_tag(t.as_slice(), "nav");
    let t = remove_block_tag(t.as_slice(), "footer");
    let t = remove_block_tag(t.as_slice(), "header");
    let t = remove_block_tag(t.as_slice(), "aside");
    let t = remove_block_tag(t.as_slice(), "noscript");
    t
}

/// `s` with the opening tags of blocks replaced by the markdown that stands for
/// them.
pub open spec fn marked(s: Seq<char>) -> Seq<char> {
    let t = s;
    let t = tag_replaced(t, "h1"@, "\n\n# "@);
    let t = tag_replaced(t, "h2"@, "\n\n## "@);
    let t = tag_replaced(t, "h3"@, "\n\n### "@);
    let t = tag_replaced(t, "h4"@, "\n\n#### "@);
    let t = tag_replaced(t, "h5"@, "\n\n##### "@);
    let t = tag_replaced(t, "h6"@, "\n\n###### "@);
    let t = tag_replaced(t, "p"@, "\n\n"@);
    let t = tag_replaced(t, "br"@, "\n"@);
    let t = tag_replaced(t, "li"@, "\n- "@);
    let t = tag_replaced(t, "tr"@, "\n"@);
    let t = tag_replaced(t, "td"@, "  "@);
    let t = tag_replaced(t, "th"@, "  "@);
    let t = tag_replaced(t, "blockquote"@, "\n\n> "@);
    let t = tag_replaced(t, "hr"@, "\n\n---\n\n"@);
    let t = tag_replaced(t, "div"@, "\n"@);
    t
}

/// Replaces the opening tags of blocks by the markdown that stands for them.
fn mark_blocks(s: &[char]) -> (r: Vec<char>)
    ensures
        r@ == marked(s@),
{
    let t = vstd::slice::slice_to_vec(s);
    let t = replace_tag(t.as_slice(), "h1", "\n\n# ");
    let t = replace_tag(t.as_slice(), "h2", "\n\n## ");
    let t = replace_tag(t.as_slice(), "h3", "\n\n### ");
    let t = replace_tag(t.as_slice(), "h4", "\n\n#### ");
    let t = replace_tag(t.as_slice(), "h5", "\n\n##### ");
    let t = replace_tag(t.as_slice(), "h6", "\n\n###### ");
    let t = replace_tag(t.as_slice(), "p", "\n\n");
    let t = replace_tag(t.as_slice(), "br", "\n");
    let t = replace_tag(t.as_slice(), "li", "\n- ");
    let t = replace_tag(t.as_slice(), "tr", "\n");
    let t = replace_tag(t.as_slice(), "td", "  ");
    let t = replace_tag(t.as_slice(), "th", "  ");
    let t = replace_tag(t.as_slice(), "blockquote", "\n\n> ");
    let t = replace_tag(t.as_slice(), "hr", "\n\n---\n\n");
    let t = replace_tag(t.as_slice(), "div", "\n");
    t
}

// ---------------------------------------------------------------------------
// Tags and white space
// ---------------------------------------------------------------------------

/// Whether a tag is open before character `i`: of the angle brackets before it,
/// the last is an opening one.
pub open spec fn in_tag_at(s: Seq<char>, i: int) -> bool
    decreases i,
{
    if i <= 0 {
        false
    } else if s[i - 1] == '<' {
        true
    } else if s[i - 1] == '>' {
        false
    } else {
        in_tag_at(s, i - 1)
    }
}

/// Those of the first `n` characters that stand outside tags and are no angle
/// brackets.
pub open spec fn untagged(s: Seq<char>, n: int) -> Seq<char>
    decreases n,
{
    if n <= 0 {
        Seq::empty()
    } else if s[n - 1] == '<' || s[n - 1] == '>' || in_tag_at(s, n - 1) {
        untagged(s, n - 1)
    } else {
        untagged(s, n - 1).push(s[n - 1])
    }
}

/// Strips all tags.
fn strip_tags(s: &[char]) -> (r: Vec<char>)
    ensures
        r@ == untagged(s@, s@.len() as int),
{
    let mut out: Vec<char> = Vec::new();
    let mut in_tag: bool = false;
    let n: usize = s.len();
    let mut i: usize = 0;
    while i < n
        invariant
            i <= n == s@.len(),
            in_tag == in_tag_at(s@, i as int),
            out@ == untagged(s@, i as int),
        decreases n - i,
    {
        let c = s[i];
        if c == '<' {
            in_tag = true;
        } else if c == '>' {
            in_tag = false;
        } else if !in_tag {
            out.push(c);
        }
        i += 1;
    }
    out
}

/// How many blank lines stand directly before line `i`.
pub open spec fn blanks_before(lines: Seq<Seq<char>>, i: int) -> nat
    decreases i,
{
    if i <= 0 || text::trimmed(lines[i - 1]).len() > 0 {
        0
    } else {
        1 + blanks_before(lines, i - 1)
    }
}

/// The first `n` lines, each trimmed and followed by a line feed; of blank
/// lines in a row only two are kept.
pub open spec fn laid_out(lines: Seq<Seq<char>>, n: int) -> Seq<char>
    decreases n,
{
    if n <= 0 {
        Seq::empty()
    } else {
        let line = text::trimmed(lines[n - 1]);
        if line.len() > 0 {
            (laid_out(lines, n - 1) + line).push('\n')
        } else if blanks_before(lines, n) <= 2 {
            laid_out(lines, n - 1).push('\n')
        } else {
            laid_out(lines, n - 1)
        }
    }
}

/// Trims every line and keeps at most two blank lines in a row.
fn lay_out(s: &[char]) -> (r: Vec<char>)
    ensures
        r@ == laid_out(text::lines_of(s@), text::lines_of(s@).len() as int),
{
    let lines = text::lines(s);
    let ghost texts = text::views(lines@);
    let mut out: Vec<char> = Vec::new();
    let n: usize = lines.len();
    let mut blank_run: usize = 0;
    let mut i: usize = 0;
    while i < n
        invariant
            i <= n == lines@.len(),
            texts == text::views(lines@),
            blank_run == blanks_before(texts, i as int),
            blank_run <= i,
            out@ == laid_out(texts, i as int),
        decreases n - i,
    {
        assert(texts[i as int] == lines@[i as int]@);
        let line = text::trim(lines[i].as_slice());
        if line.len() == 0 {
            blank_run += 1;
            if blank_run <= 2 {
                out.push('\n');
            }
        } else {
            blank_run = 0;
            text::extend_chars(&mut out, line);
            out.push('\n');
        }
        i += 1;
    }
    out
}

// ---------------------------------------------------------------------------
// Pages
// ---------------------------------------------------------------------------

/// The readable text of an HTML page.
pub open spec fn page_text(html: Seq<char>) -> Seq<char> {
    let tagged = marked(readable(html));
    let plain = decoded(untagged(tagged, tagged.len() as int));
    let lines = text::lines_of(plain);
    text::trimmed(laid_out(lines, lines.len() as int))
}

/// Strips HTML to readable plain text, preserving headings and paragraphs as
/// blank-line separated blocks.
pub fn html_to_text(html: &str) -> (r: String)
    ensures
        r@ == page_text(html@),
{
    let chars = text::chars_of(html);
    let kept = keep_readable(chars.as_slice());
    let tagged = mark_blocks(kept.as_slice());
    let stripped = strip_tags(tagged.as_slice());
    let plain = decode_entities(stripped.as_slice());
    let out = lay_out(plain.as_slice());
    text::string_of(text::trim(out.as_slice()))
}

/// The least index at or after `i` at which a tag opens.
pub open spec fn opening_from(s: Seq<char>, tag: Seq<char>, i: int) -> Option<int>
    decreases s.len() - i,
{
    if i < 0 || i >= s.len() {
        None
    } else if opens(s.skip(i), tag) {
        Some(i)
    } else {
        opening_from(s, tag, i + 1)
    }
}

/// The least index at which a tag opens; `lower` is `s` in lower case.
fn find_opening(s: &[char], lower: &[char], tag: &str) -> (r: Option<usize>)
    requires
        lower@ == text::ascii_lowered(s@),
    ensures
        match (r, opening_from(s@, tag@, 0)) {
            (Some(a), Some(b)) => a == b && a < s@.len(),
            (None, None) => true,
            _ => false,
        },
{
    let name = text::chars_of(tag);
    let mut open: Vec<char> = Vec::new();
    open.push('<');
    text::extend_chars(&mut open, name.as_slice());
    assert(open@ =~= open_of(tag@));
    let n: usize = s.len();
    let mut i: usize = 0;
    while i < n
        invariant
            i <= n == s@.len(),
            lower@ == text::ascii_lowered(s@),
            open@ == open_of(tag@),
            opening_from(s@, tag@, 0) == opening_from(s@, tag@, i as int),
        decreases n - i,
    {
        if opens_at(s, lower, open.as_slice(), i, Ghost(tag@)) {
            return Some(i);
        }
        i += 1;
    }
    None
}

/// The title of an HTML page: what stands in its first title element, trimmed
/// and with entities decoded, where that is not blank.
pub open spec fn page_title(html: Seq<char>) -> Option<Seq<char>> {
    let lower = text::ascii_lowered(html);
    match opening_from(html, "title"@, 0) {
        None => None,
        Some(start) => match text::find_from(html, ">"@, start) {
            None => None,
            Some(open) => {
                let from = open + ">"@.len();
                match text::find_from(lower, "</title>"@, from) {
                    None => None,
                    Some(end) => {
                        let raw = text::trimmed(html.subrange(from, end));
                        if raw.len() == 0 {
                            None
                        } else {
                            Some(decoded(raw))
                        }
                    },
                }
            },
        },
    }
}

/// The title of an HTML page.
pub fn extract_title(html: &str) -> (r: Option<String>)
    ensures
        document::opt_view(r) == page_title(html@),
{
    let chars = text::chars_of(html);
    let lower = text::lower_ascii(chars.as_slice());
    let bracket = text::chars_of(">");
    let closing = text::chars_of("</title>");
    let total: usize = chars.len();
    let start: usize = match find_opening(chars.as_slice(), lower.as_slice(), "title") {
        Some(i) => i,
        None => {
            return None;
        },
    };
    let from: usize = match text::find_after(chars.as_slice(), bracket.as_slice(), start) {
        Some(i) => {
            assert(i + bracket@.len() <= total);
            i + bracket.len()
        },
        None => {
            return None;
        },
    };
    let end: usize = match text::find_after(lower.as_slice(), closing.as_slice(), from) {
        Some(i) => i,
        None => {
            return None;
        },
    };
    let raw = text::trim(vstd::slice::slice_subrange(chars.as_slice(), from, end));
    if raw.len() == 0 {
        None
    } else {
        let decoded = decode_entities(raw);
        Some(text::string_of(decoded.as_slice()))
    }
}

/// The title that a page is stored under: its own, or else its address.
pub open spec fn stored_title(url: Seq<char>, html: Seq<char>) -> Seq<char> {
    match page_title(html) {
        Some(title) => title,
        None => url,
    }
}

/// What stands in a page's document before the time at which it was fetched.
pub open spec fn page_head(title: Seq<char>, url: Seq<char>) -> Seq<char> {
    "---\ntitle: \""@ + text::replaced(title, "\""@, "\\\""@) + "\"\nsource: \""@ + url
        + "\"\nfetched_at: \""@
}

/// What stands in a page's document behind the time at which it was fetched.
pub open spec fn page_tail(title: Seq<char>, body: Seq<char>) -> Seq<char> {
    "\"\n---\n\n# "@ + title + "\n\n"@ + body
}

/// The document that a page is stored as.
pub open spec fn page_document(
    title: Seq<char>,
    url: Seq<char>,
    fetched_at: Seq<char>,
    body: Seq<char>,
) -> Seq<char> {
    page_head(title, url) + fetched_at + page_tail(title, body)
}

/// Whether a text is what a page is stored as, whenever it was fetched.
pub open spec fn is_version_of(
    content: Seq<char>,
    title: Seq<char>,
    url: Seq<char>,
    body: Seq<char>,
) -> bool {
    exists|at: Seq<char>|
        !at.contains('"') && content == #[trigger] page_document(title, url, at, body)
}

/// A web page as it is stored: its title, and its document before and behind
/// the time at which it was fetched.
#[derive(Debug)]
pub struct Page {
    pub title: String,
    pub head: String,
    pub tail: String,
}

impl Page {
    /// Whether the page is that of the given address and HTML.
    pub open spec fn is_of(&self, url: Seq<char>, html: Seq<char>) -> bool {
        &&& self.title@ == stored_title(url, html)
        &&& self.head@ == page_head(stored_title(url, html), url)
        &&& self.tail@ == page_tail(stored_title(url, html), page_text(html))
    }

    /// The page's document, with the time at which it was fetched as text.
    pub fn document(&self, fetched_at: &str) -> (r: String)
        ensures
            r@ == self.head@ + fetched_at@ + self.tail@,
    {
        let mut content = self.head.clone();
        content.append(fetched_at);
        content.append(self.tail.as_str());
        content
    }

    /// Whether a text is the page's document, whenever it was fetched.
    pub(crate) fn same_page(
        &self,
        content: &str,
        Ghost(url): Ghost<Seq<char>>,
        Ghost(html): Ghost<Seq<char>>,
    ) -> (r: bool)
        requires
            self.is_of(url, html),
        ensures
            r == is_version_of(content@, stored_title(url, html), url, page_text(html)),
    {
        let chars = text::chars_of(content);
        let head = text::chars_of(self.head.as_str());
        let tail = text::chars_of(self.tail.as_str());
        let ghost title = stored_title(url, html);
        let ghost body = page_text(html);
        let n: usize = chars.len();
        if head.len() > n || tail.len() > n - head.len() {
            proof {
                if is_version_of(content@, title, url, body) {
                    let at = choose|at: Seq<char>|
                        !at.contains('"') && content@ == #[trigger] page_document(
                            title,
                            url,
                            at,
                            body,
                        );
                    assert(content@.len() == head@.len() + at.len() + tail@.len());
                }
            }
            return false;
        }
        let from: usize = head.len();
        let to: usize = n - tail.len();
        let ghost middle = content@.subrange(from as int, to as int);
        let mut quoted: bool = false;
        let mut i: usize = from;
        while i < to
            invariant
                from <= i <= to <= n == chars@.len(),
                chars@ == content@,
                middle == content@.subrange(from as int, to as int),
                quoted == exists|k: int| 0 <= k < i - from && #[trigger] middle[k] == '"',
            decreases to - i,
        {
            assert(middle[i - from] == chars@[i as int]);
            if chars[i] == '"' {
                quoted = true;
            }
            i += 1;
        }
        let r: bool = !quoted && text::stands_at(chars.as_slice(), head.as_slice(), 0)
            && text::stands_at(chars.as_slice(), tail.as_slice(), to);
        proof {
            if r {
                assert(content@ =~= page_document(title, url, middle, body)) by {
                    assert(content@.subrange(0, from as int) =~= head@);
                    assert(content@.subrange(to as int, n as int) =~= tail@);
                    assert(content@ =~= content@.subrange(0, from as int) + middle
                        + content@.subrange(to as int, n as int));
                }
                assert(!middle.contains('"'));
            }
            if is_version_of(content@, title, url, body) {
                let at = choose|at: Seq<char>|
                    !at.contains('"') && content@ == #[trigger] page_document(
                        title,
                        url,
                        at,
                        body,
                    );
                assert(content@.len() == head@.len() + at.len() + tail@.len());
                assert(middle =~= at);
                assert(content@.subrange(0, from as int) =~= head@);
                assert(content@.subrange(to as int, n as int) =~= tail@);
                if quoted {
                    let k = choose|k: int| 0 <= k < to - from && #[trigger] middle[k] == '"';
                    assert(at.contains(at[k]));
                }
            }
        }
        r
    }
}

/// The title and the readable text of a fetched page, made ready to be stored.
pub fn page_from_html(url: &str, html: &str) -> (r: Page)
    ensures
        r.is_of(url@, html@),
{
    let title = match extract_title(html) {
        Some(title) => title,
        None => url.to_owned(),
    };
    let body = html_to_text(html);
    let chars = text::chars_of(title.as_str());
    let escaped = text::replace(chars.as_slice(), "\"", "\\\"");
    let mut head = "---\ntitle: \"".to_owned();
    text::push_chars(&mut head, escaped.as_slice());
    head.append("\"\nsource: \"");
    head.append(url);
    head.append("\"\nfetched_at: \"");
    let mut tail = "\"\n---\n\n# ".to_owned();
    tail.append(title.as_str());
    tail.append("\n\n");
    tail.append(body.as_str());
    Page { title, head, tail }
}

// ---------------------------------------------------------------------------
// Laws
// ---------------------------------------------------------------------------

/// Stripping tags leaves no angle bracket.
pub proof fn no_bracket_survives(s: Seq<char>, n: int)
    requires
        0 <= n <= s.len(),
    ensures
        !untagged(s, n).contains('<'),
        !untagged(s, n).contains('>'),
    decreases n,
{
    if n > 0 {
        no_bracket_survives(s, n - 1);
        let before = untagged(s, n - 1);
        assert forall|i: int| 0 <= i < untagged(s, n).len() implies untagged(s, n)[i] != '<'
            && untagged(s, n)[i] != '>' by {
            if i < before.len() {
                assert(untagged(s, n)[i] == before[i]);
                assert(before.contains(before[i]));
            }
        }
    }
}

/// Text without brackets is kept as it is.
pub proof fn plain_text_has_no_tags(s: Seq<char>, n: int)
    requires
        0 <= n <= s.len(),
        !s.contains('<'),
        !s.contains('>'),
    ensures
        untagged(s, n) == s.take(n),
        !in_tag_at(s, n),
    decreases n,
{
    if n > 0 {
        plain_text_has_no_tags(s, n - 1);
        assert(s.contains(s[n - 1]));
        assert(s.take(n) =~= s.take(n - 1).push(s[n - 1]));
    } else {
        assert(s.take(0) =~= Seq::empty());
    }
}

/// A text without the first character of what is replaced stays unchanged.
proof fn lemma_nothing_replaced(s: Seq<char>, from: Seq<char>, to: Seq<char>)
    requires
        from.len() > 0,
        !s.contains(from[0]),
    ensures
        text::replaced(s, from, to) == s,
    decreases s.len(),
{
    if s.len() > 0 {
        if text::begins_with(s, from) {
            assert(s.subrange(0, from.len() as int)[0] == from[0]);
            assert(s.contains(s[0]));
        }
        assert forall|i: int| 0 <= i < s.skip(1).len() implies s.skip(1)[i] != from[0] by {
            assert(s.contains(s[i + 1]));
        }
        lemma_nothing_replaced(s.skip(1), from, to);
        assert(seq![s[0]] + s.skip(1) =~= s);
    }
}

/// Text without an ampersand holds no entity.
pub proof fn plain_text_has_no_entities(s: Seq<char>)
    requires
        !s.contains('&'),
    ensures
        decoded(s) == s,
{
    reveal_strlit("&amp;");
    lemma_nothing_replaced(s, "&amp;"@, "&"@);
    reveal_strlit("&lt;");
    lemma_nothing_replaced(s, "&lt;"@, "<"@);
    reveal_strlit("&gt;");
    lemma_nothing_replaced(s, "&gt;"@, ">"@);
    reveal_strlit("&quot;");
    lemma_nothing_replaced(s, "&quot;"@, "\""@);
    reveal_strlit("&#39;");
    lemma_nothing_replaced(s, "&#39;"@, "'"@);
    reveal_strlit("&apos;");
    lemma_nothing_replaced(s, "&apos;"@, "'"@);
    reveal_strlit("&nbsp;");
    lemma_nothing_replaced(s, "&nbsp;"@, " "@);
    reveal_strlit("&mdash;");
    lemma_nothing_replaced(s, "&mdash;"@, "—"@);
    reveal_strlit("&ndash;");
    lemma_nothing_replaced(s, "&ndash;"@, "–"@);
    reveal_strlit("&hellip;");
    lemma_nothing_replaced(s, "&hellip;"@, "…"@);
    reveal_strlit("&laquo;");
    lemma_nothing_replaced(s, "&laquo;"@, "«"@);
    reveal_strlit("&raquo;");
    lemma_nothing_replaced(s, "&raquo;"@, "»"@);
}

/// Whether four line feeds in a row, and so three blank lines, begin at `i`.
pub open spec fn wide_gap_at(s: Seq<char>, i: int) -> bool {
    &&& 0 <= i
    &&& i + 4 <= s.len()
    &&& s[i] == '\n'
    &&& s[i + 1] == '\n'
    &&& s[i + 2] == '\n'
    &&& s[i + 3] == '\n'
}

/// How many line feeds end a text.
spec fn feeds_at_end(s: Seq<char>) -> nat
    decreases s.len(),
{
    if s.len() > 0 && s.last() == '\n' {
        1 + feeds_at_end(s.drop_last())
    } else {
        0
    }
}

proof fn lemma_layout_gaps(lines: Seq<Seq<char>>, n: int)
    requires
        0 <= n <= lines.len(),
        forall|i: int| 0 <= i < lines.len() ==> !(#[trigger] lines[i]).contains('\n'),
    ensures
        forall|i: int| !wide_gap_at(laid_out(lines, n), i),
        feeds_at_end(laid_out(lines, n)) <= 1 + (if blanks_before(lines, n) <= 2 {
            blanks_before(lines, n)
        } else {
            2
        }),
    decreases n,
{
    if n > 0 {
        lemma_layout_gaps(lines, n - 1);
        let before = laid_out(lines, n - 1);
        let now = laid_out(lines, n);
        let line = text::trimmed(lines[n - 1]);
        let part = text::lemma_trimmed_part(lines[n - 1]);
        if line.len() > 0 {
            assert forall|k: int| 0 <= k < line.len() implies #[trigger] line[k] != '\n' by {
                assert(lines[n - 1].contains(lines[n - 1][part.0 + k]));
            }
            assert(now.drop_last() =~= before + line);
            assert((before + line).last() == line.last());
            assert(feeds_at_end(now) == 1) by {
                reveal_with_fuel(feeds_at_end, 2);
            }
            assert forall|i: int| !wide_gap_at(now, i) by {
                if wide_gap_at(now, i) {
                    assert(!wide_gap_at(before, i));
                    if i + 4 > before.len() {
                        let k = if i >= before.len() {
                            0
                        } else {
                            before.len() - i
                        };
                        let at = i + k - before.len();
                        assert(0 <= at);
                        if at < line.len() {
                            assert(now[i + k] == line[at]);
                        }
                    }
                }
            }
        } else if blanks_before(lines, n) <= 2 {
            assert(now.drop_last() =~= before);
            assert forall|i: int| !wide_gap_at(now, i) by {
                if wide_gap_at(now, i) {
                    assert(!wide_gap_at(before, i));
                    reveal_with_fuel(feeds_at_end, 5);
                    assert(i + 4 == now.len());
                    assert(before.drop_last().drop_last().drop_last().len() == i);
                }
            }
        }
    }
}

/// The readable text of a page holds no three blank lines in a row.
pub proof fn blank_lines_are_collapsed(html: Seq<char>, i: int)
    ensures
        !wide_gap_at(page_text(html), i),
{
    let tagged = marked(readable(html));
    let plain = decoded(untagged(tagged, tagged.len() as int));
    let lines = text::lines_of(plain);
    let out = laid_out(lines, lines.len() as int);
    assert forall|k: int| 0 <= k < lines.len() implies !(#[trigger] lines[k]).contains('\n') by {
        text::lemma_line_has_no_feed(plain, k);
    }
    lemma_layout_gaps(lines, lines.len() as int);
    let part = text::lemma_trimmed_part(out);
    if wide_gap_at(page_text(html), i) {
        assert(wide_gap_at(out, part.0 + i));
    }
}

/// Without an opening bracket no tag opens.
proof fn lemma_no_opening(s: Seq<char>, tag: Seq<char>)
    requires
        !s.contains('<'),
    ensures
        !opens(s, tag),
{
    if opens(s, tag) {
        let low = text::ascii_lowered(s);
        assert(low.subrange(0, open_of(tag).len() as int)[0] == open_of(tag)[0]);
        assert(low[0] == text::ascii_lower(s[0]));
        assert(s[0] == '<');
        assert(s.contains(s[0]));
    }
}

/// What follows the first character lacks what the text lacks.
proof fn lemma_skip_lacks(s: Seq<char>, n: int, c: char)
    requires
        0 <= n <= s.len(),
        !s.contains(c),
    ensures
        !s.skip(n).contains(c),
{
    assert forall|i: int| 0 <= i < s.skip(n).len() implies s.skip(n)[i] != c by {
        assert(s.contains(s[n + i]));
    }
}

/// Two texts that lack a character lack it together.
proof fn lemma_sum_lacks(a: Seq<char>, b: Seq<char>, c: char)
    requires
        !a.contains(c),
        !b.contains(c),
    ensures
        !(a + b).contains(c),
{
    assert forall|i: int| 0 <= i < (a + b).len() implies (a + b)[i] != c by {
        if i < a.len() {
            assert(a.contains(a[i]));
        } else {
            assert(b.contains(b[i - a.len()]));
        }
    }
}

/// Removing blocks adds no character, and nothing changes where no tag opens.
proof fn lemma_blocks(s: Seq<char>, tag: Seq<char>, c: char)
    requires
        !s.contains(c),
    ensures
        !without_blocks(s, tag).contains(c),
        c == '<' ==> without_blocks(s, tag) == s,
    decreases s.len(),
{
    if s.len() > 0 {
        if opens(s, tag) {
            if c == '<' {
                lemma_no_opening(s, tag);
            }
            text::lemma_find_from(text::ascii_lowered(s), close_of(tag), 0);
            if let Some(end) = text::find_in(text::ascii_lowered(s), close_of(tag)) {
                let next = end + close_of(tag).len();
                lemma_skip_lacks(s, next, c);
                lemma_blocks(s.skip(next), tag, c);
            }
        } else {
            lemma_skip_lacks(s, 1, c);
            lemma_blocks(s.skip(1), tag, c);
            assert(s.contains(s[0]));
            assert(!seq![s[0]].contains(c)) by {
                assert forall|i: int| 0 <= i < 1 implies seq![s[0]][i] != c by {}
            }
            lemma_sum_lacks(seq![s[0]], without_blocks(s.skip(1), tag), c);
            assert(seq![s[0]] + s.skip(1) =~= s);
        }
    }
}

/// Replacing tags adds no character but those of the replacement, and nothing
/// changes where no tag opens.
proof fn lemma_tags(s: Seq<char>, tag: Seq<char>, to: Seq<char>, c: char)
    requires
        !s.contains(c),
        c == '<' || !to.contains(c),
    ensures
        !tag_replaced(s, tag, to).contains(c),
        c == '<' ==> tag_replaced(s, tag, to) == s,
    decreases s.len(),
{
    if s.len() > 0 {
        if opens(s, tag) {
            if c == '<' {
                lemma_no_opening(s, tag);
            }
            lemma_tag_len(s);
            let next = tag_len(s) as int;
            lemma_skip_lacks(s, next, c);
            lemma_tags(s.skip(next), tag, to, c);
            lemma_sum_lacks(to, tag_replaced(s.skip(next), tag, to), c);
        } else {
            lemma_skip_lacks(s, 1, c);
            lemma_tags(s.skip(1), tag, to, c);
            assert(s.contains(s[0]));
            assert(!seq![s[0]].contains(c)) by {
                assert forall|i: int| 0 <= i < 1 implies seq![s[0]][i] != c by {}
            }
            lemma_sum_lacks(seq![s[0]], tag_replaced(s.skip(1), tag, to), c);
            assert(seq![s[0]] + s.skip(1) =~= s);
        }
    }
}

proof fn lemma_readable(s: Seq<char>, c: char)
    requires
        !s.contains(c),
    ensures
        !readable(s).contains(c),
        c == '<' ==> readable(s) == s,
{
    let t = s;
    lemma_blocks(t, "script"@, c);
    let t = without_blocks(t, "script"@);
    lemma_blocks(t, "style"@, c);
    let t = without_blocks(t, "style"@);
    lemma_blocks(t, "nav"@, c);
    let t = without_blocks(t, "nav"@);
    lemma_blocks(t, "footer"@, c);
    let t = without_blocks(t, "footer"@);
    lemma_blocks(t, "header"@, c);
    let t = without_blocks(t, "header"@);
    lemma_blocks(t, "aside"@, c);
    let t = without_blocks(t, "aside"@);
    lemma_blocks(t, "noscript"@, c);
}

proof fn lemma_marked(s: Seq<char>, c: char)
    requires
        !s.contains(c),
        c == '<' || c == '&',
    ensures
        !marked(s).contains(c),
        c == '<' ==> marked(s) == s,
{
    reveal_strlit("\n\n# ");
    reveal_strlit("\n\n## ");
    reveal_strlit("\n\n### ");
    reveal_strlit("\n\n#### ");
    reveal_strlit("\n\n##### ");
    reveal_strlit("\n\n###### ");
    reveal_strlit("\n\n");
    reveal_strlit("\n");
    reveal_strlit("\n- ");
    reveal_strlit("  ");
    reveal_strlit("\n\n> ");
    reveal_strlit("\n\n---\n\n");
    let t = s;
    lemma_tags(t, "h1"@, "\n\n# "@, c);
    let t = tag_replaced(t, "h1"@, "\n\n# "@);
    lemma_tags(t, "h2"@, "\n\n## "@, c);
    let t = tag_replaced(t, "h2"@, "\n\n## "@);
    lemma_tags(t, "h3"@, "\n\n### "@, c);
    let t = tag_replaced(t, "h3"@, "\n\n### "@);
    lemma_tags(t, "h4"@, "\n\n#### "@, c);
    let t = tag_replaced(t, "h4"@, "\n\n#### "@);
    lemma_tags(t, "h5"@, "\n\n##### "@, c);
    let t = tag_replaced(t, "h5"@, "\n\n##### "@);
    lemma_tags(t, "h6"@, "\n\n###### "@, c);
    let t = tag_replaced(t, "h6"@, "\n\n###### "@);
    lemma_tags(t, "p"@, "\n\n"@, c);
    let t = tag_replaced(t, "p"@, "\n\n"@);
    lemma_tags(t, "br"@, "\n"@, c);
    let t = tag_replaced(t, "br"@, "\n"@);
    lemma_tags(t, "li"@, "\n- "@, c);
    let t = tag_replaced(t, "li"@, "\n- "@);
    lemma_tags(t, "tr"@, "\n"@, c);
    let t = tag_replaced(t, "tr"@, "\n"@);
    lemma_tags(t, "td"@, "  "@, c);
    let t = tag_replaced(t, "td"@, "  "@);
    lemma_tags(t, "th"@, "  "@, c);
    let t = tag_replaced(t, "th"@, "  "@);
    lemma_tags(t, "blockquote"@, "\n\n> "@, c);
    let t = tag_replaced(t, "blockquote"@, "\n\n> "@);
    lemma_tags(t, "hr"@, "\n\n---\n\n"@, c);
    let t = tag_replaced(t, "hr"@, "\n\n---\n\n"@);
    lemma_tags(t, "div"@, "\n"@, c);
}

/// Stripping tags adds no character.
proof fn lemma_untagged_lacks(s: Seq<char>, n: int, c: char)
    requires
        0 <= n <= s.len(),
        !s.contains(c),
    ensures
        !untagged(s, n).contains(c),
    decreases n,
{
    if n > 0 {
        lemma_untagged_lacks(s, n - 1, c);
        assert(s.contains(s[n - 1]));
        let before = untagged(s, n - 1);
        assert forall|i: int| 0 <= i < untagged(s, n).len() implies untagged(s, n)[i] != c by {
            if i < before.len() {
                assert(before.contains(before[i]));
            }
        }
    }
}

/// The lines of a text lack what the text lacks, and so does their layout, but
/// for line feeds.
proof fn lemma_layout_lacks(s: Seq<char>, n: int, c: char)
    requires
        0 <= n <= text::lines_of(s).len(),
        !s.contains(c),
        c != '\n',
    ensures
        !laid_out(text::lines_of(s), n).contains(c),
    decreases n,
{
    let lines = text::lines_of(s);
    if n > 0 {
        lemma_layout_lacks(s, n - 1, c);
        let before = laid_out(lines, n - 1);
        let line = text::trimmed(lines[n - 1]);
        let part = text::lemma_trimmed_part(lines[n - 1]);
        text::lemma_line_occurs(s, n - 1);
        let at = text::line_start(s, n - 1);
        assert forall|i: int| 0 <= i < line.len() implies line[i] != c by {
            assert(line[i] == lines[n - 1][part.0 + i]);
            assert(lines[n - 1][part.0 + i] == s.subrange(at, at + lines[n - 1].len())[part.0
                + i]);
            assert(s.contains(s[at + part.0 + i]));
        }
        lemma_sum_lacks(before, line, c);
        let feed = seq!['\n'];
        assert(!feed.contains(c));
        lemma_sum_lacks(before + line, feed, c);
        lemma_sum_lacks(before, feed, c);
        assert((before + line).push('\n') =~= before + line + feed);
        assert(before.push('\n') =~= before + feed);
    }
}

/// The lines in a row, each followed by a line feed.
spec fn ended(lines: Seq<Seq<char>>) -> Seq<char>
    decreases lines.len(),
{
    if lines.len() == 0 {
        Seq::empty()
    } else {
        lines[0] + seq!['\n'] + ended(lines.skip(1))
    }
}

proof fn lemma_ended_push(lines: Seq<Seq<char>>, line: Seq<char>)
    ensures
        ended(lines.push(line)) == ended(lines) + line + seq!['\n'],
    decreases lines.len(),
{
    let all = lines.push(line);
    if lines.len() > 0 {
        lemma_ended_push(lines.skip(1), line);
        assert(all.skip(1) =~= lines.skip(1).push(line));
        assert(ended(all) =~= ended(lines) + line + seq!['\n']);
    } else {
        assert(all.skip(1) =~= Seq::empty());
        assert(ended(all.skip(1)) =~= Seq::empty());
        assert(ended(all) =~= ended(lines) + line + seq!['\n']);
    }
}

/// The lines that are not blank, trimmed.
pub open spec fn solid(lines: Seq<Seq<char>>) -> Seq<Seq<char>>
    decreases lines.len(),
{
    if lines.len() == 0 {
        Seq::empty()
    } else if text::is_blank(lines.last()) {
        solid(lines.drop_last())
    } else {
        solid(lines.drop_last()).push(text::trimmed(lines.last()))
    }
}

/// The lines that are not blank of two lists in a row.
proof fn lemma_solid_join(a: Seq<Seq<char>>, b: Seq<Seq<char>>)
    ensures
        solid(a + b) == solid(a) + solid(b),
    decreases b.len(),
{
    if b.len() > 0 {
        lemma_solid_join(a, b.drop_last());
        assert((a + b).drop_last() =~= a + b.drop_last());
        assert((a + b).last() == b.last());
        assert(solid(a + b) =~= solid(a) + solid(b));
    } else {
        assert(a + b =~= a);
        assert(solid(a) + solid(b) =~= solid(a));
    }
}

/// Whether a line is trimmed and holds no line feed.
pub open spec fn is_neat_line(line: Seq<char>) -> bool {
    text::trimmed(line) == line && !line.contains('\n')
}

/// Whether lines are laid out: each is trimmed, and no three in a row are blank.
pub open spec fn is_neat(lines: Seq<Seq<char>>) -> bool {
    &&& forall|i: int| 0 <= i < lines.len() ==> is_neat_line(#[trigger] lines[i])
    &&& forall|i: int| 0 <= i <= lines.len() ==> #[trigger] blanks_before(lines, i) <= 2
}

/// A line that is trimmed and not empty has no white space at its ends.
proof fn lemma_neat_ends(line: Seq<char>)
    requires
        is_neat_line(line),
    ensures
        line.len() > 0 ==> !text::is_white(line[0]) && !text::is_white(line.last()),
{
    let (a, b) = text::lemma_trimmed_ends(line);
    assert(line.subrange(a, b).len() == line.len());
    assert(a == 0);
    assert(b == line.len());
    if line.len() > 0 {
        assert(!text::is_white(line[0]));
        assert(!text::is_white(line[line.len() - 1]));
    }
}

/// Trimming a trimmed text changes nothing.
proof fn lemma_trimmed_twice(s: Seq<char>)
    ensures
        text::trimmed(text::trimmed(s)) == text::trimmed(s),
{
    let (a, b) = text::lemma_trimmed_ends(s);
    let t = text::trimmed(s);
    text::lemma_trimmed_is(t, 0, t.len() as int);
    assert(t.subrange(0, t.len() as int) =~= t);
}

/// The blank lines before a place do not depend on what follows.
proof fn lemma_blanks_prefix(lines: Seq<Seq<char>>, more: Seq<Seq<char>>, i: int)
    requires
        0 <= i <= lines.len(),
    ensures
        blanks_before(lines + more, i) == blanks_before(lines, i),
    decreases i,
{
    if i > 0 {
        assert((lines + more)[i - 1] == lines[i - 1]);
        if text::trimmed(lines[i - 1]).len() == 0 {
            lemma_blanks_prefix(lines, more, i - 1);
        }
    }
}

/// Laying lines out gives neat lines.
proof fn lemma_laid_out(lines: Seq<Seq<char>>, n: int) -> (kept: Seq<Seq<char>>)
    requires
        0 <= n <= lines.len(),
        forall|i: int| 0 <= i < lines.len() ==> !(#[trigger] lines[i]).contains('\n'),
    ensures
        is_neat(kept),
        laid_out(lines, n) == ended(kept),
        solid(kept) == solid(lines.take(n)),
        blanks_before(kept, kept.len() as int) == if blanks_before(lines, n) <= 2 {
            blanks_before(lines, n)
        } else {
            2
        },
    decreases n,
{
    if n <= 0 {
        assert(lines.take(n) =~= Seq::empty());
        Seq::empty()
    } else {
        let before = lemma_laid_out(lines, n - 1);
        let line = text::trimmed(lines[n - 1]);
        assert(lines.take(n).drop_last() =~= lines.take(n - 1));
        text::lemma_trimmed_blank(lines[n - 1]);
        text::lemma_trimmed_blank(line);
        if line.len() == 0 && blanks_before(lines, n) > 2 {
            before
        } else {
            let kept = before.push(line);
            assert(kept.drop_last() =~= before);
            lemma_ended_push(before, line);
            lemma_trimmed_twice(lines[n - 1]);
            let part = text::lemma_trimmed_part(lines[n - 1]);
            assert(!line.contains('\n')) by {
                assert forall|k: int| 0 <= k < line.len() implies line[k] != '\n' by {
                    assert(lines[n - 1].contains(lines[n - 1][part.0 + k]));
                }
            }
            assert(kept =~= before + seq![line]);
            lemma_blanks_prefix(before, seq![line], before.len() as int);
            assert(kept[kept.len() - 1] == line);
            assert forall|i: int| 0 <= i < kept.len() implies is_neat_line(#[trigger] kept[i]) by {
                if i < before.len() {
                    assert(kept[i] == before[i]);
                }
            }
            assert forall|i: int| 0 <= i <= kept.len() implies #[trigger] blanks_before(kept, i)
                <= 2 by {
                if i <= before.len() {
                    lemma_blanks_prefix(before, seq![line], i);
                    assert(blanks_before(before, i) <= 2);
                }
            }
            assert(laid_out(lines, n) =~= ended(kept));
            kept
        }
    }
}

/// Neat lines are laid out as they are.
proof fn lemma_neat_stays(lines: Seq<Seq<char>>, n: int)
    requires
        is_neat(lines),
        0 <= n <= lines.len(),
    ensures
        laid_out(lines, n) == ended(lines.take(n)),
    decreases n,
{
    if n > 0 {
        lemma_neat_stays(lines, n - 1);
        assert(is_neat_line(lines[n - 1]));
        assert(blanks_before(lines, n) <= 2);
        assert(lines.take(n) =~= lines.take(n - 1).push(lines[n - 1]));
        lemma_ended_push(lines.take(n - 1), lines[n - 1]);
        assert(laid_out(lines, n) =~= ended(lines.take(n)));
    } else {
        assert(lines.take(0) =~= Seq::empty());
    }
}

/// The blank lines before a place among the lines without the first one.
proof fn lemma_blanks_skip(lines: Seq<Seq<char>>, i: int)
    requires
        0 <= i < lines.len(),
    ensures
        blanks_before(lines.skip(1), i) <= blanks_before(lines, i + 1),
    decreases i,
{
    if i > 0 {
        assert(lines.skip(1)[i - 1] == lines[i]);
        lemma_blanks_skip(lines, i - 1);
    }
}

/// Trimming does not see white space at the end.
proof fn lemma_trimmed_push(s: Seq<char>, c: char)
    requires
        text::is_white(c),
    ensures
        text::trimmed(s.push(c)) == text::trimmed(s),
{
    let (a, b) = text::lemma_trimmed_ends(s);
    let t = s.push(c);
    if a == b {
        assert(text::is_blank(t)) by {
            assert forall|i: int| 0 <= i < t.len() implies text::is_white(#[trigger] t[i]) by {
                if i < s.len() {
                    assert(text::is_white(s[i]));
                }
            }
        }
        text::lemma_trimmed_blank(t);
        assert(text::trimmed(t) =~= text::trimmed(s));
    } else {
        assert forall|i: int| 0 <= i < a implies text::is_white(#[trigger] t[i]) by {
            assert(text::is_white(s[i]));
        }
        assert forall|i: int| b <= i < t.len() implies text::is_white(#[trigger] t[i]) by {
            if i < s.len() {
                assert(text::is_white(s[i]));
            }
        }
        text::lemma_trimmed_is(t, a, b);
        assert(t.subrange(a, b) =~= s.subrange(a, b));
    }
}

/// Neat lines without the blank ones at both ends: trimming their text does not
/// tell the difference.
proof fn lemma_core(lines: Seq<Seq<char>>) -> (core: Seq<Seq<char>>)
    requires
        is_neat(lines),
    ensures
        is_neat(core),
        core.len() > 0 ==> core[0].len() > 0 && core.last().len() > 0,
        text::trimmed(ended(core)) == text::trimmed(ended(lines)),
        solid(core) == solid(lines),
    decreases lines.len(),
{
    if lines.len() > 0 && lines[0].len() == 0 {
        let rest = lines.skip(1);
        assert forall|i: int| 0 <= i < rest.len() implies is_neat_line(#[trigger] rest[i]) by {
            assert(rest[i] == lines[i + 1]);
        }
        assert forall|i: int| 0 <= i <= rest.len() implies #[trigger] blanks_before(rest, i)
            <= 2 by {
            lemma_blanks_skip(lines, i);
            assert(blanks_before(lines, i + 1) <= 2);
        }
        assert(lines =~= seq![lines[0]] + rest);
        lemma_solid_join(seq![lines[0]], rest);
        reveal_with_fuel(solid, 2);
        assert(solid(seq![lines[0]]) + solid(rest) =~= solid(rest));
        assert(ended(lines) =~= seq!['\n'] + ended(rest));
        assert(ended(lines).skip(1) =~= ended(rest));
        assert(text::is_white('\n'));
        lemma_core(rest)
    } else if lines.len() > 0 && lines.last().len() == 0 {
        let rest = lines.drop_last();
        assert(lines =~= rest.push(lines.last()));
        assert(lines =~= rest + seq![lines.last()]);
        assert forall|i: int| 0 <= i < rest.len() implies is_neat_line(#[trigger] rest[i]) by {
            assert(rest[i] == lines[i]);
        }
        assert forall|i: int| 0 <= i <= rest.len() implies #[trigger] blanks_before(rest, i)
            <= 2 by {
            lemma_blanks_prefix(rest, seq![lines.last()], i);
            assert(blanks_before(lines, i) <= 2);
        }
        lemma_ended_push(rest, lines.last());
        assert(text::is_blank(lines.last()));
        assert(ended(lines) =~= ended(rest).push('\n'));
        assert(text::is_white('\n'));
        lemma_trimmed_push(ended(rest), '\n');
        lemma_core(rest)
    } else {
        lines
    }
}

/// The lines of neat lines in a row are those lines.
proof fn lemma_lines_of_ended(lines: Seq<Seq<char>>)
    requires
        forall|i: int| 0 <= i < lines.len() ==> is_neat_line(#[trigger] lines[i]),
    ensures
        text::lines_of(ended(lines)) == lines,
    decreases lines.len(),
{
    if lines.len() > 0 {
        let rest = lines.skip(1);
        assert forall|i: int| 0 <= i < rest.len() implies is_neat_line(#[trigger] rest[i]) by {
            assert(rest[i] == lines[i + 1]);
        }
        lemma_lines_of_ended(rest);
        assert(is_neat_line(lines[0]));
        lemma_neat_ends(lines[0]);
        assert(text::is_white('\r'));
        text::lemma_lines_front(lines[0], ended(rest));
        assert(seq![lines[0]] + rest =~= lines);
    } else {
        assert(text::lines_of(ended(lines)) =~= lines);
    }
}

/// A text laid out: its lines trimmed, no three of them blank in a row, and no
/// white space around them.
pub open spec fn tidied(s: Seq<char>) -> Seq<char> {
    text::trimmed(laid_out(text::lines_of(s), text::lines_of(s).len() as int))
}

/// Laying out a text that was laid out changes nothing.
pub proof fn tidied_text_stays(s: Seq<char>)
    ensures
        tidied(tidied(s)) == tidied(s),
{
    let core = lemma_tidied(s);
}

/// Laying out a text loses none of its lines but blank ones, and keeps their order.
pub proof fn tidying_keeps_the_lines(s: Seq<char>)
    ensures
        solid(text::lines_of(tidied(s))) == solid(text::lines_of(s)),
{
    let core = lemma_tidied(s);
}

/// The lines of a text that was laid out.
proof fn lemma_tidied(s: Seq<char>) -> (core: Seq<Seq<char>>)
    ensures
        is_neat(core),
        core.len() > 0 ==> core[0].len() > 0 && core.last().len() > 0,
        text::lines_of(tidied(s)) == core,
        solid(core) == solid(text::lines_of(s)),
        tidied(tidied(s)) == tidied(s),
{
    let lines = text::lines_of(s);
    assert forall|k: int| 0 <= k < lines.len() implies !(#[trigger] lines[k]).contains('\n') by {
        text::lemma_line_has_no_feed(s, k);
    }
    let kept = lemma_laid_out(lines, lines.len() as int);
    assert(lines.take(lines.len() as int) =~= lines);
    let core = lemma_core(kept);
    let t = tidied(s);
    lemma_core_stays(core, t);
    core
}

/// Neat lines that neither begin nor end with a blank one are laid out as they are.
proof fn lemma_core_stays(core: Seq<Seq<char>>, t: Seq<char>)
    requires
        is_neat(core),
        core.len() > 0 ==> core[0].len() > 0 && core.last().len() > 0,
        t == text::trimmed(ended(core)),
    ensures
        text::lines_of(t) == core,
        tidied(t) == t,
        core.len() > 0 ==> t.push('\n') == ended(core),
{
    let full = ended(core);
    assert(t == text::trimmed(full));
    if core.len() == 0 {
        assert(full =~= Seq::empty());
        text::lemma_trimmed_is(full, 0, 0);
        assert(t =~= Seq::empty());
        assert(text::lines_of(t) =~= core);
        assert(laid_out(text::lines_of(t), 0) =~= Seq::empty());
    } else {
        let last = core.last();
        let front = core.drop_last();
        assert(core =~= front.push(last));
        lemma_ended_push(front, last);
        let n = full.len() - 1;
        let body = full.take(n);
        assert(full =~= ended(front) + last + seq!['\n']);
        assert(is_neat_line(core[0]));
        assert(is_neat_line(core[core.len() - 1]));
        lemma_neat_ends(core[0]);
        lemma_neat_ends(last);
        assert(full[0] == core[0][0]) by {
            assert(full == core[0] + seq!['\n'] + ended(core.skip(1)));
        }
        assert(full[n - 1] == last.last());
        assert(full[n] == '\n');
        assert(text::is_white('\n') && text::is_white('\r'));
        text::lemma_trimmed_is(full, 0, n);
        assert(full.subrange(0, n) =~= body);
        assert(t == body);
        assert(body.push('\n') =~= full);
        assert(body.last() == last.last());
        text::lemma_lines_feed(body);
        lemma_lines_of_ended(core);
        assert(text::lines_of(t) == core);
        lemma_neat_stays(core, core.len() as int);
        assert(core.take(core.len() as int) =~= core);
    }
}

/// A text whose lines are trimmed, of which no three in a row are blank and neither
/// the first nor the last is, is laid out as it is.
pub proof fn tidy_text_stays(lines: Seq<Seq<char>>)
    requires
        is_neat(lines),
        lines.len() > 0,
        lines[0].len() > 0,
        lines.last().len() > 0,
    ensures
        tidied(text::joined(lines, seq!['\n'])) == text::joined(lines, seq!['\n']),
{
    let t = text::trimmed(ended(lines));
    lemma_core_stays(lines, t);
    lemma_ended_joined(lines);
    assert(t =~= t.push('\n').drop_last());
    assert(text::joined(lines, seq!['\n']) =~= text::joined(lines, seq!['\n']).push(
        '\n',
    ).drop_last());
}

/// Lines that are each followed by a line feed are joined by line feeds, with one more
/// at the end.
proof fn lemma_ended_joined(lines: Seq<Seq<char>>)
    requires
        lines.len() > 0,
    ensures
        text::joined(lines, seq!['\n']).push('\n') == ended(lines),
    decreases lines.len(),
{
    let front = lines.drop_last();
    let sep = seq!['\n'];
    assert(lines =~= front.push(lines.last()));
    lemma_ended_push(front, lines.last());
    if front.len() > 0 {
        lemma_ended_joined(front);
        assert(text::joined(lines, sep).push('\n') =~= ended(lines));
    } else {
        assert(text::joined(lines, sep).push('\n') =~= ended(lines));
    }
}

/// The layout of lines that follow others depends on these by their layout and
/// whether two blank lines end them.
proof fn lemma_layout_behind(a: Seq<Seq<char>>, b: Seq<Seq<char>>, c: Seq<Seq<char>>, n: int)
    requires
        0 <= n <= c.len(),
        laid_out(a, a.len() as int) == laid_out(b, b.len() as int),
        blanks_before(a, a.len() as int) >= 2,
        blanks_before(b, b.len() as int) >= 2,
    ensures
        laid_out(a + c, a.len() + n) == laid_out(b + c, b.len() + n),
        blanks_before(a + c, a.len() + n) == blanks_before(b + c, b.len() + n) || (blanks_before(
            a + c,
            a.len() + n,
        ) >= 2 && blanks_before(b + c, b.len() + n) >= 2),
    decreases n,
{
    if n > 0 {
        lemma_layout_behind(a, b, c, n - 1);
        assert((a + c)[a.len() + n - 1] == c[n - 1]);
        assert((b + c)[b.len() + n - 1] == c[n - 1]);
    } else {
        lemma_layout_prefix(a, c, a.len() as int);
        lemma_layout_prefix(b, c, b.len() as int);
        lemma_blanks_prefix(a, c, a.len() as int);
        lemma_blanks_prefix(b, c, b.len() as int);
    }
}

/// The layout of some lines does not depend on what follows them.
proof fn lemma_layout_prefix(a: Seq<Seq<char>>, c: Seq<Seq<char>>, n: int)
    requires
        0 <= n <= a.len(),
    ensures
        laid_out(a + c, n) == laid_out(a, n),
    decreases n,
{
    if n > 0 {
        lemma_layout_prefix(a, c, n - 1);
        lemma_blanks_prefix(a, c, n);
        assert((a + c)[n - 1] == a[n - 1]);
    }
}

/// Of blank lines in a row two are kept: one more makes no difference.
pub proof fn more_blank_lines_make_no_difference(a: Seq<char>, b: Seq<char>)
    ensures
        tidied(a + seq!['\n', '\n', '\n', '\n'] + b) == tidied(a + seq!['\n', '\n', '\n'] + b),
{
    let first = a.push('\n').push('\n').push('\n');
    let more = first.push('\n');
    assert(a + seq!['\n', '\n', '\n'] + b =~= first + b);
    assert(a + seq!['\n', '\n', '\n', '\n'] + b =~= more + b);
    text::lemma_lines_join(first, b);
    text::lemma_lines_join(more, b);
    let x = text::lines_of(first);
    let y = text::lines_of(more);
    let z = text::lines_of(b);
    let empty = Seq::<char>::empty();
    let one = a.push('\n');
    text::lemma_lines_feed(one);
    text::lemma_lines_feed(one.push('\n'));
    text::lemma_lines_feed(first);
    assert(y =~= x.push(empty));
    let n = x.len() as int;
    assert(x[n - 1] == empty && x[n - 2] == empty);
    assert(text::trimmed(empty).len() == 0);
    reveal_with_fuel(blanks_before, 3);
    assert(blanks_before(x, n) >= 2);
    assert(y =~= x + seq![empty]);
    lemma_layout_prefix(x, seq![empty], n);
    lemma_blanks_prefix(x, seq![empty], n);
    assert(y[n] == empty);
    assert(laid_out(y, n + 1) == laid_out(x, n));
    lemma_layout_behind(x, y, z, z.len() as int);
}

/// The readable text of a page without an ampersand holds no angle bracket, and
/// is its own readable text.
pub proof fn readable_text_stays(html: Seq<char>)
    requires
        !html.contains('&'),
    ensures
        !page_text(html).contains('<'),
        !page_text(html).contains('>'),
        page_text(page_text(html)) == page_text(html),
{
    let tagged = marked(readable(html));
    let bare = untagged(tagged, tagged.len() as int);
    lemma_readable(html, '&');
    lemma_marked(readable(html), '&');
    lemma_untagged_lacks(tagged, tagged.len() as int, '&');
    no_bracket_survives(tagged, tagged.len() as int);
    plain_text_has_no_entities(bare);
    let n = text::lines_of(bare).len() as int;
    let out = laid_out(text::lines_of(bare), n);
    lemma_layout_lacks(bare, n, '&');
    lemma_layout_lacks(bare, n, '<');
    lemma_layout_lacks(bare, n, '>');
    let r = page_text(html);
    assert(r == tidied(bare));
    let part = text::lemma_trimmed_part(out);
    assert forall|i: int| 0 <= i < r.len() implies r[i] != '&' && r[i] != '<' && r[i] != '>' by {
        assert(r[i] == out[part.0 + i]);
        assert(out.contains(out[part.0 + i]));
    }
    lemma_readable(r, '<');
    lemma_marked(r, '<');
    plain_text_has_no_tags(r, r.len() as int);
    assert(r.take(r.len() as int) =~= r);
    plain_text_has_no_entities(r);
    tidied_text_stays(bare);
    assert(page_text(r) == tidied(r));
}

} // verus!
