//! Documents: identity by content hash, frontmatter, titles and chunks.

use sha2::Digest;
use vstd::prelude::*;
use vstd::utf8::*;

use crate::rows;
use crate::text;

verus! {

// ---------------------------------------------------------------------------
// Constants
// ---------------------------------------------------------------------------

/// Estimated tokens at which a chunk is cut.
pub const CHUNK_TOKENS: usize = 900;

/// Estimated tokens of the preceding text that a chunk repeats.
pub const OVERLAP_TOKENS: usize = 135;

/// Lines on either side of the target within which a cut may move.
pub const BREAK_WINDOW: usize = 10;

/// Hexadecimal digits of a document identifier.
pub const ID_LEN: usize = 12;

// ---------------------------------------------------------------------------
// Hashing
// ---------------------------------------------------------------------------

/// The SHA-256 digest of a byte string.
pub uninterp spec fn sha256(data: Seq<u8>) -> Seq<u8>;

/// `sha2::Sha256::digest`: the digest, which is a function of the data alone and
/// is 32 bytes long.
#[verifier::external_body]
fn sha256_digest(data: &[u8]) -> (r: Vec<u8>)
    ensures
        r@ == sha256(data@),
        r@.len() == 32,
{
    sha2::Sha256::digest(data).to_vec()
}

/// The lower-case hexadecimal digit of `d`.
pub open spec fn hex_digit(d: int) -> char {
    if d < 10 {
        (48 + d) as char
    } else {
        (87 + d) as char
    }
}

/// Whether `c` is a lower-case hexadecimal digit.
pub open spec fn is_hex_digit(c: char) -> bool {
    48 <= c as u32 <= 57 || 97 <= c as u32 <= 102
}

/// Two lower-case hexadecimal digits for each byte, the high half first.
pub open spec fn hex_of(data: Seq<u8>) -> Seq<char> {
    Seq::new(
        2 * data.len(),
        |i: int|
            hex_digit(
                if i % 2 == 0 {
                    data[i / 2] as int / 16
                } else {
                    data[i / 2] as int % 16
                },
            ),
    )
}

/// `hex::encode`: two lower-case hexadecimal digits for each byte.
#[verifier::external_body]
fn hex_encode(data: &[u8]) -> (r: String)
    ensures
        r@ == hex_of(data@),
{
    hex::encode(data)
}

/// The hexadecimal SHA-256 digest of the UTF-8 encoding of `content`.
pub open spec fn content_hash_of(content: Seq<char>) -> Seq<char> {
    hex_of(sha256(encode_utf8(content)))
}

/// The identifier of a document with the given content.
pub open spec fn content_id_of(content: Seq<char>) -> Seq<char> {
    content_hash_of(content).take(ID_LEN as int)
}

/// Returns the full SHA-256 hex of `content`.
pub fn sha256_hex(content: &str) -> (r: String)
    ensures
        r@ == content_hash_of(content@),
        r@.len() == 64,
        forall|i: int| 0 <= i < r@.len() ==> is_hex_digit(#[trigger] r@[i]),
{
    let digest = sha256_digest(content.as_bytes());
    hex_encode(digest.as_slice())
}

/// Returns the first 12 hex chars of SHA-256(content) as the document ID.
pub fn content_id(content: &str) -> (r: String)
    ensures
        r@ == content_id_of(content@),
        r@.len() == ID_LEN,
        forall|i: int| 0 <= i < r@.len() ==> is_hex_digit(#[trigger] r@[i]),
{
    let hash = sha256_hex(content);
    let chars = text::chars_of(hash.as_str());
    text::string_of(text::take(chars.as_slice(), ID_LEN))
}

// ---------------------------------------------------------------------------
// Frontmatter
// ---------------------------------------------------------------------------

/// The value of a frontmatter field.
#[derive(Debug)]
pub struct FieldValue {
    /// The string, where the value is one.
    pub text: Option<String>,
    /// The value in compact JSON.
    pub json: String,
}

/// A frontmatter field.
#[derive(Debug)]
pub struct Field {
    pub key: String,
    pub value: FieldValue,
}

/// The fields of a document's frontmatter.
#[derive(Debug)]
pub struct Frontmatter {
    pub fields: Vec<Field>,
}

/// What a field holds: its key, its string if it is one, and its JSON.
pub type FieldView = (Seq<char>, Option<Seq<char>>, Seq<char>);

/// The content of an optional string.
pub open spec fn opt_view(s: Option<String>) -> Option<Seq<char>> {
    match s {
        Some(t) => Some(t@),
        None => None,
    }
}

/// The text of the first field with the given key, if that field is a string.
pub open spec fn field_text(fields: Seq<FieldView>, key: Seq<char>) -> Option<Seq<char>>
    decreases fields.len(),
{
    if fields.len() == 0 {
        None
    } else if fields[0].0 == key {
        fields[0].1
    } else {
        field_text(fields.skip(1), key)
    }
}

impl View for FieldValue {
    type V = (Option<Seq<char>>, Seq<char>);

    open spec fn view(&self) -> (Option<Seq<char>>, Seq<char>) {
        (opt_view(self.text), self.json@)
    }
}

impl View for Field {
    type V = FieldView;

    open spec fn view(&self) -> FieldView {
        (self.key@, opt_view(self.value.text), self.value.json@)
    }
}

impl View for Frontmatter {
    type V = Seq<FieldView>;

    open spec fn view(&self) -> Seq<FieldView> {
        Seq::new(self.fields@.len(), |i: int| self.fields@[i]@)
    }
}

/// A copy of an optional string.
pub fn clone_opt(s: &Option<String>) -> (r: Option<String>)
    ensures
        r == *s,
{
    match s {
        Some(t) => Some(t.clone()),
        None => None,
    }
}

impl Clone for FieldValue {
    fn clone(&self) -> (r: Self)
        ensures
            r == *self,
    {
        FieldValue { text: clone_opt(&self.text), json: self.json.clone() }
    }
}

impl Clone for Field {
    fn clone(&self) -> (r: Self)
        ensures
            r == *self,
    {
        Field { key: self.key.clone(), value: self.value.clone() }
    }
}

impl Clone for Frontmatter {
    fn clone(&self) -> (r: Self)
        ensures
            r@ == self@,
    {
        let r = Frontmatter { fields: self.fields.clone() };
        assert(r@ =~= self@);
        r
    }
}

impl FieldValue {
    /// The string, where the value is one.
    pub fn as_str(&self) -> (r: Option<&str>)
        ensures
            match r {
                Some(s) => self@.0 == Some(s@),
                None => self@.0 is None,
            },
    {
        match &self.text {
            Some(s) => Some(s.as_str()),
            None => None,
        }
    }
}

impl Frontmatter {
    /// Frontmatter without fields.
    pub fn new() -> (r: Self)
        ensures
            r@ == Seq::<FieldView>::empty(),
    {
        let r = Frontmatter { fields: Vec::new() };
        assert(r@ =~= Seq::<FieldView>::empty());
        r
    }

    /// The value of the field with the given key.
    pub fn get(&self, key: &str) -> (r: Option<&FieldValue>)
        ensures
            match r {
                Some(v) => exists|i: int|
                    0 <= i < self@.len() && (#[trigger] self@[i]) == (key@, v@.0, v@.1)
                        && forall|j: int| 0 <= j < i ==> (#[trigger] self@[j]).0 != key@,
                None => forall|j: int| 0 <= j < self@.len() ==> (#[trigger] self@[j]).0 != key@,
            },
            field_text(self@, key@) == match r {
                Some(v) => v@.0,
                None => None,
            },
    {
        let n: usize = self.fields.len();
        let mut i: usize = 0;
        assert(self@.skip(0) =~= self@);
        while i < n
            invariant
                i <= n == self.fields@.len() == self@.len(),
                forall|j: int| 0 <= j < i ==> (#[trigger] self@[j]).0 != key@,
                field_text(self@, key@) == field_text(self@.skip(i as int), key@),
            decreases n - i,
        {
            assert(self@[i as int] == self.fields@[i as int]@);
            assert(self@.skip(i as int)[0] == self@[i as int]);
            if text::same(self.fields[i].key.as_str(), key) {
                return Some(&self.fields[i].value);
            }
            assert(self@.skip(i as int).skip(1) =~= self@.skip(i + 1));
            i += 1;
        }
        None
    }
}

/// The contents of a list of YAML mapping entries.
pub open spec fn entry_views(v: Seq<(String, Option<String>, String)>) -> Seq<FieldView> {
    Seq::new(v.len(), |i: int| (v[i].0@, opt_view(v[i].1), v[i].2@))
}

/// Whether fields stand in the order of their keys, each key once.
pub open spec fn is_ordered(fields: Seq<FieldView>) -> bool {
    forall|i: int, j: int|
        0 <= i < j < fields.len() ==> text::lex_less(
            (#[trigger] fields[i]).0,
            (#[trigger] fields[j]).0,
        )
}

/// Whether the JSON of each string is that string, quoted.
pub open spec fn is_quoted(fields: Seq<FieldView>) -> bool {
    forall|i: int|
        0 <= i < fields.len() ==> match (#[trigger] fields[i]).1 {
            Some(t) => fields[i].2 == rows::json_string(t),
            None => true,
        }
}

/// The entries of a YAML mapping with string keys, in the order of their keys;
/// no entries where the text is not such a mapping.
pub uninterp spec fn yaml_fields(yaml: Seq<char>) -> Seq<(Seq<char>, Option<Seq<char>>, Seq<char>)>;

/// `serde_yaml::from_str` into an ordered map from strings to JSON values: each
/// entry as its key, its text where the value is a string, and its JSON. A map
/// holds each key once, in their order, and the JSON of a string is the string
/// quoted. What the YAML grammar makes of a text is left to the name.
#[verifier::external_body]
fn yaml_mapping(yaml: &str) -> (r: Vec<(String, Option<String>, String)>)
    ensures
        entry_views(r@) == yaml_fields(yaml@),
        is_ordered(entry_views(r@)),
        is_quoted(entry_views(r@)),
{
    serde_yaml::from_str::<std::collections::BTreeMap<String, serde_json::Value>>(yaml)
        .unwrap_or_default()
        .into_iter()
        .map(|(key, value)| (key, value.as_str().map(String::from), value.to_string()))
        .collect()
}

/// How frontmatter divides a text: where the YAML ends and where the body
/// begins, or `None` where the text has no frontmatter.
pub open spec fn frontmatter_split(content: Seq<char>) -> Option<(Seq<char>, Seq<char>)> {
    if !text::begins_with(content, "---"@) {
        None
    } else {
        let rest = content.skip("---"@.len() as int);
        match text::find_in(rest, "\n---"@) {
            None => None,
            Some(end) => {
                let after = rest.skip(end + "\n---"@.len());
                Some(
                    (
                        rest.take(end),
                        if after.len() > 0 && after[0] == '\n' {
                            after.skip(1)
                        } else {
                            after
                        },
                    ),
                )
            },
        }
    }
}

/// The fields of a text's frontmatter.
pub open spec fn frontmatter_of(content: Seq<char>) -> Seq<FieldView> {
    match frontmatter_split(content) {
        Some((yaml, body)) => yaml_fields(yaml),
        None => Seq::empty(),
    }
}

/// A text without its frontmatter.
pub open spec fn body_of(content: Seq<char>) -> Seq<char> {
    match frontmatter_split(content) {
        Some((yaml, body)) => body,
        None => content,
    }
}

/// The YAML of a text's frontmatter and the text without it, or `None` where
/// the text has no frontmatter.
pub fn split_frontmatter(content: &str) -> (r: Option<(&str, &str)>)
    ensures
        match (r, frontmatter_split(content@)) {
            (Some((yaml, body)), Some((y, b))) => yaml@ == y && body@ == b,
            (None, None) => true,
            _ => false,
        },
{
    let chars = text::chars_of(content);
    let fence = text::chars_of("---");
    let close = text::chars_of("\n---");
    if !text::stands_at(chars.as_slice(), fence.as_slice(), 0) {
        return None;
    }
    let head: usize = fence.len();
    let rest = text::skip(chars.as_slice(), head);
    match text::find(rest, close.as_slice()) {
        None => None,
        Some(end) => {
            let total: usize = chars.len();
            let mut body: usize = head + end + close.len();
            let ghost after = rest@.skip(end + close@.len());
            assert(after =~= content@.skip(body as int));
            let yaml = content.substring_char(head, head + end);
            assert(yaml@ =~= rest@.take(end as int));
            if body < total && chars[body] == '\n' {
                body += 1;
                assert(after.skip(1) =~= content@.skip(body as int));
            }
            let tail = content.substring_char(body, total);
            assert(tail@ =~= content@.skip(body as int));
            Some((yaml, tail))
        },
    }
}

/// Parses YAML frontmatter from a markdown string.
/// Returns `(fields, body)` where `body` is the markdown without the `---` block.
pub fn parse_frontmatter(content: &str) -> (r: (Frontmatter, &str))
    ensures
        r.0@ == frontmatter_of(content@),
        is_ordered(r.0@),
        is_quoted(r.0@),
        r.1@ == body_of(content@),
{
    match split_frontmatter(content) {
        None => (Frontmatter::new(), content),
        Some((yaml, body)) => (fields_of(yaml_mapping(yaml)), body),
    }
}

/// The entries of a mapping as frontmatter fields.
pub fn fields_of(entries: Vec<(String, Option<String>, String)>) -> (r: Frontmatter)
    ensures
        r@ == entry_views(entries@),
{
    let mut fields: Vec<Field> = Vec::new();
    let n: usize = entries.len();
    let mut i: usize = 0;
    while i < n
        invariant
            i <= n == entries@.len(),
            fields@.len() == i,
            forall|k: int|
                0 <= k < i ==> (#[trigger] fields@[k])@ == entry_views(entries@)[k],
        decreases n - i,
    {
        let (key, text, json) = &entries[i];
        let value = FieldValue { text: clone_opt(text), json: json.clone() };
        fields.push(Field { key: key.clone(), value });
        i += 1;
    }
    let r = Frontmatter { fields };
    assert(r@ =~= entry_views(entries@));
    r
}

// ---------------------------------------------------------------------------
// Titles
// ---------------------------------------------------------------------------

/// The text of the first of the lines that is a first-level heading.
pub open spec fn first_heading(lines: Seq<Seq<char>>) -> Option<Seq<char>>
    decreases lines.len(),
{
    if lines.len() == 0 {
        None
    } else if text::begins_with(lines[0], "# "@) {
        Some(text::trimmed(lines[0].skip("# "@.len() as int)))
    } else {
        first_heading(lines.skip(1))
    }
}

/// Extracts the text of the first H1 heading from a markdown string.
pub fn extract_h1(content: &str) -> (r: Option<String>)
    ensures
        opt_view(r) == first_heading(text::lines_of(content@)),
        is_first_heading(text::lines_of(content@), opt_view(r)),
{
    proof {
        first_headings_are_found(text::lines_of(content@));
    }
    let chars = text::chars_of(content);
    let all = text::lines(chars.as_slice());
    let mark = text::chars_of("# ");
    let ghost texts = text::views(all@);
    let n: usize = all.len();
    let mut i: usize = 0;
    assert(texts.skip(0) =~= texts);
    while i < n
        invariant
            i <= n == all@.len() == texts.len(),
            texts == text::views(all@),
            texts == text::lines_of(content@),
            mark@ == "# "@,
            first_heading(texts) == first_heading(texts.skip(i as int)),
            is_first_heading(texts, first_heading(texts)),
        decreases n - i,
    {
        let line = all[i].as_slice();
        assert(texts.skip(i as int)[0] == line@);
        if text::stands_at(line, mark.as_slice(), 0) {
            return Some(text::string_of(text::trim(text::skip(line, mark.len()))));
        }
        assert(texts.skip(i as int).skip(1) =~= texts.skip(i + 1));
        i += 1;
    }
    None
}

/// The title of a document: the frontmatter's, else the first heading, else `fallback`.
pub open spec fn title_of(
    fields: Seq<FieldView>,
    content: Seq<char>,
    fallback: Seq<char>,
) -> Seq<char> {
    match field_text(fields, "title"@) {
        Some(t) => t,
        None => match first_heading(text::lines_of(content)) {
            Some(t) => t,
            None => fallback,
        },
    }
}

/// The title of a document: the frontmatter's, else the first heading of
/// `content`, else `fallback`.
pub fn choose_title(fields: &Frontmatter, content: &str, fallback: &str) -> (r: String)
    ensures
        r@ == title_of(fields@, content@, fallback@),
        is_title(fields@, content@, fallback@, r@),
{
    proof {
        titles_come_from_the_text(fields@, content@, fallback@);
    }
    if let Some(value) = fields.get("title") {
        if let Some(title) = value.as_str() {
            return title.to_owned();
        }
    }
    match extract_h1(content) {
        Some(title) => title,
        None => fallback.to_owned(),
    }
}

// ---------------------------------------------------------------------------
// Documents
// ---------------------------------------------------------------------------

/// A point in time: seconds since the Unix epoch, and nanoseconds.
#[derive(Debug, Clone, Copy, PartialEq, Eq, Structural)]
pub struct Timestamp {
    pub secs: i64,
    pub nanos: u32,
}

/// A point in time in nanoseconds since the Unix epoch.
pub open spec fn instant(t: Timestamp) -> int {
    t.secs * 1_000_000_000 + t.nanos
}

impl Timestamp {
    /// The point in time in nanoseconds since the Unix epoch.
    pub fn instant(&self) -> (r: i128)
        ensures
            r == instant(*self),
    {
        self.secs as i128 * 1_000_000_000 + self.nanos as i128
    }
}

/// A stored document.
#[derive(Debug)]
pub struct Document {
    /// First 12 hex digits of the content's hash: stable across renames
    pub id: String,
    pub path: String,
    pub collection: String,
    pub title: String,
    pub content: String,
    pub frontmatter: Frontmatter,
    pub added_at: Timestamp,
    /// Full hash in hex: used to detect unchanged files
    pub content_hash: String,
}

/// What a document holds.
pub struct DocumentView {
    pub id: Seq<char>,
    pub path: Seq<char>,
    pub collection: Seq<char>,
    pub title: Seq<char>,
    pub content: Seq<char>,
    pub frontmatter: Seq<FieldView>,
    pub added_at: Timestamp,
    pub content_hash: Seq<char>,
}

impl View for Document {
    type V = DocumentView;

    open spec fn view(&self) -> DocumentView {
        DocumentView {
            id: self.id@,
            path: self.path@,
            collection: self.collection@,
            title: self.title@,
            content: self.content@,
            frontmatter: self.frontmatter@,
            added_at: self.added_at,
            content_hash: self.content_hash@,
        }
    }
}

impl Clone for Document {
    fn clone(&self) -> (r: Self)
        ensures
            r@ == self@,
    {
        Document {
            id: self.id.clone(),
            path: self.path.clone(),
            collection: self.collection.clone(),
            title: self.title.clone(),
            content: self.content.clone(),
            frontmatter: self.frontmatter.clone(),
            added_at: self.added_at,
            content_hash: self.content_hash.clone(),
        }
    }
}

// ---------------------------------------------------------------------------
// Laws
// ---------------------------------------------------------------------------

/// Frontmatter and body make up the text: between them stand the marks of the
/// frontmatter and at most one line feed.
pub proof fn frontmatter_and_body_make_up_the_text(content: Seq<char>)
    ensures
        match frontmatter_split(content) {
            Some((yaml, body)) => {
                ||| content == "---"@ + yaml + "\n---"@ + body
                ||| content == "---"@ + yaml + "\n---"@ + seq!['\n'] + body
            },
            None => body_of(content) == content && frontmatter_of(content).len() == 0,
        },
{
    if let Some((yaml, body)) = frontmatter_split(content) {
        let open = "---"@;
        let close = "\n---"@;
        let rest = content.skip(open.len() as int);
        text::lemma_find_from(rest, close, 0);
        let end = text::find_in(rest, close).unwrap();
        let after = rest.skip(end + close.len());
        assert(content.subrange(0, open.len() as int) =~= open);
        assert(rest.subrange(end, end + close.len()) =~= close);
        assert(content =~= open + yaml + close + after);
        if after.len() > 0 && after[0] == '\n' {
            assert(after =~= seq!['\n'] + body);
            assert(content =~= open + yaml + close + seq!['\n'] + body);
        }
    }
}

/// The first end mark ends the frontmatter: the frontmatter holds none.
pub proof fn frontmatter_ends_at_the_first_mark(content: Seq<char>, i: int)
    requires
        frontmatter_split(content) is Some,
    ensures
        !text::occurs_at(frontmatter_split(content).unwrap().0, "\n---"@, i),
{
    let yaml = frontmatter_split(content).unwrap().0;
    let close = "\n---"@;
    let rest = content.skip("---"@.len() as int);
    text::lemma_find_from(rest, close, 0);
    let end = text::find_in(rest, close).unwrap();
    if text::occurs_at(yaml, close, i) {
        reveal_strlit("\n---");
        assert(rest.subrange(i, i + close.len()) =~= yaml.subrange(i, i + close.len()));
        assert(text::occurs_at(rest, close, i));
    }
}

/// A text between marks is its frontmatter, and what follows the line of the second mark
/// is its body.
pub proof fn frontmatter_stands_between_marks(yaml: Seq<char>, body: Seq<char>)
    requires
        forall|i: int| !#[trigger] text::occurs_at(yaml, "\n---"@, i),
    ensures
        frontmatter_split("---"@ + yaml + "\n---\n"@ + body) == Some((yaml, body)),
        body_of("---"@ + yaml + "\n---\n"@ + body) == body,
{
    reveal_strlit("---");
    reveal_strlit("\n---");
    reveal_strlit("\n---\n");
    let open = "---"@;
    let close = "\n---"@;
    let content = open + yaml + "\n---\n"@ + body;
    let rest = content.skip(3);
    let n = yaml.len() as int;
    assert(content.subrange(0, 3) =~= open);
    assert(rest =~= yaml + "\n---\n"@ + body);
    assert(rest.subrange(n, n + 4) =~= close);
    assert(text::occurs_at(rest, close, n));
    assert forall|i: int| 0 <= i < n implies !text::occurs_at(rest, close, i) by {
        if text::occurs_at(rest, close, i) {
            if i + 4 <= n {
                assert(yaml.subrange(i, i + 4) =~= rest.subrange(i, i + 4));
                assert(text::occurs_at(yaml, close, i));
            } else {
                assert(rest.subrange(i, i + 4)[n - i] == close[n - i]);
                assert(rest[n] == '\n');
            }
        }
    }
    text::lemma_find_from(rest, close, 0);
    assert(text::find_in(rest, close) == Some(n));
    let after = rest.skip(n + 4);
    assert(after =~= seq!['\n'] + body);
    assert(after.skip(1) =~= body);
    assert(rest.take(n) =~= yaml);
}

/// A text that does not begin with a mark, or in which no second one follows, has no
/// frontmatter.
pub proof fn texts_without_marks_have_no_frontmatter(content: Seq<char>)
    requires
        !text::begins_with(content, "---"@) || forall|i: int|
            !#[trigger] text::occurs_at(content, "\n---"@, i),
    ensures
        frontmatter_split(content) is None,
        body_of(content) == content,
        frontmatter_of(content).len() == 0,
{
    if text::begins_with(content, "---"@) {
        let n = "---"@.len() as int;
        let close = "\n---"@;
        let rest = content.skip(n);
        text::lemma_find_from(rest, close, 0);
        if let Some(end) = text::find_in(rest, close) {
            assert(content.subrange(n + end, n + end + close.len()) =~= rest.subrange(
                end,
                end + close.len(),
            ));
            assert(text::occurs_at(content, close, n + end));
        }
    }
}

/// Whether a line is a heading of the first level: a number sign and a space.
pub open spec fn is_first_level(line: Seq<char>) -> bool {
    line.len() >= 2 && line[0] == '#' && line[1] == ' '
}

/// Whether `heading` is the text of the first heading of the first level, without the
/// white space around it; none where there is no such heading.
pub open spec fn is_first_heading(lines: Seq<Seq<char>>, heading: Option<Seq<char>>) -> bool {
    match heading {
        Some(t) => exists|i: int|
            0 <= i < lines.len() && is_first_level(#[trigger] lines[i]) && t == text::trimmed(
                lines[i].skip(2),
            ) && forall|j: int| 0 <= j < i ==> !is_first_level(#[trigger] lines[j]),
        None => forall|j: int| 0 <= j < lines.len() ==> !is_first_level(#[trigger] lines[j]),
    }
}

/// The first heading of the first level is found.
pub proof fn first_headings_are_found(lines: Seq<Seq<char>>)
    ensures
        is_first_heading(lines, first_heading(lines)),
    decreases lines.len(),
{
    reveal_strlit("# ");
    if lines.len() > 0 {
        let line = lines[0];
        assert(text::begins_with(line, "# "@) <==> is_first_level(line)) by {
            if text::begins_with(line, "# "@) {
                assert(line.subrange(0, 2)[0] == "# "@[0]);
                assert(line.subrange(0, 2)[1] == "# "@[1]);
            }
            if is_first_level(line) {
                assert(line.subrange(0, 2) =~= "# "@);
            }
        }
        let rest = lines.skip(1);
        first_headings_are_found(rest);
        if !is_first_level(line) {
            match first_heading(rest) {
                Some(t) => {
                    let i = choose|i: int|
                        0 <= i < rest.len() && is_first_level(#[trigger] rest[i]) && t
                            == text::trimmed(rest[i].skip(2)) && forall|j: int|
                            0 <= j < i ==> !is_first_level(#[trigger] rest[j]);
                    assert(lines[i + 1] == rest[i]);
                    assert forall|j: int| 0 <= j < i + 1 implies !is_first_level(
                        #[trigger] lines[j],
                    ) by {
                        if j > 0 {
                            assert(rest[j - 1] == lines[j]);
                        }
                    }
                },
                None => {
                    assert forall|j: int| 0 <= j < lines.len() implies !is_first_level(
                        #[trigger] lines[j],
                    ) by {
                        if j > 0 {
                            assert(rest[j - 1] == lines[j]);
                        }
                    }
                },
            }
        }
    }
}

/// Whether a field is the first with its key.
pub open spec fn is_field(fields: Seq<FieldView>, key: Seq<char>, i: int) -> bool {
    &&& 0 <= i < fields.len()
    &&& fields[i].0 == key
    &&& forall|j: int| 0 <= j < i ==> (#[trigger] fields[j]).0 != key
}

/// The text of a field is that of the first with its key.
proof fn lemma_field_text(fields: Seq<FieldView>, key: Seq<char>)
    ensures
        forall|i: int| #[trigger] is_field(fields, key, i) ==> field_text(fields, key) == fields[i].1,
        (forall|i: int| !#[trigger] is_field(fields, key, i)) ==> field_text(fields, key) is None,
    decreases fields.len(),
{
    if fields.len() > 0 {
        let rest = fields.skip(1);
        lemma_field_text(rest, key);
        assert forall|i: int| #[trigger] is_field(fields, key, i) implies field_text(fields, key)
            == fields[i].1 by {
            if i > 0 {
                assert(fields[0].0 != key);
                assert forall|j: int| 0 <= j < i - 1 implies (#[trigger] rest[j]).0 != key by {
                    assert(fields[j + 1].0 != key);
                }
                assert(is_field(rest, key, i - 1));
            }
        }
        if forall|i: int| !#[trigger] is_field(fields, key, i) {
            assert(!is_field(fields, key, 0));
            assert forall|i: int| !#[trigger] is_field(rest, key, i) by {
                if is_field(rest, key, i) {
                    assert forall|j: int| 0 <= j < i + 1 implies (#[trigger] fields[j]).0 != key by {
                        if j > 0 {
                            assert(rest[j - 1].0 != key);
                        }
                    }
                    assert(is_field(fields, key, i + 1));
                }
            }
        }
    }
}

/// Whether a title is that of a document: the string under the key `title` of its
/// frontmatter, else its first heading, else the fallback.
pub open spec fn is_title(
    fields: Seq<FieldView>,
    content: Seq<char>,
    fallback: Seq<char>,
    title: Seq<char>,
) -> bool {
    ||| exists|i: int| #[trigger] is_field(fields, "title"@, i) && fields[i].1 == Some(title)
    ||| {
        &&& forall|i: int| #[trigger] is_field(fields, "title"@, i) ==> fields[i].1 is None
        &&& is_first_heading(text::lines_of(content), Some(title)) || (is_first_heading(
            text::lines_of(content),
            None,
        ) && title == fallback)
    }
}

/// A document's title is that of its frontmatter, else its first heading, else the
/// fallback.
pub proof fn titles_come_from_the_text(
    fields: Seq<FieldView>,
    content: Seq<char>,
    fallback: Seq<char>,
)
    ensures
        is_title(fields, content, fallback, title_of(fields, content, fallback)),
{
    lemma_field_text(fields, "title"@);
    first_headings_are_found(text::lines_of(content));
    if let Some(t) = field_text(fields, "title"@) {
        let i = choose|i: int| #[trigger] is_field(fields, "title"@, i);
        assert(is_field(fields, "title"@, i));
    }
}

} // verus!
