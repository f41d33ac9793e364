//! Documents and nodes as rows of text, the form in which a database keeps them.

use vstd::prelude::*;

use crate::document;
use crate::document::{Document, DocumentView, FieldView, Frontmatter, Timestamp};
use crate::graph;
use crate::graph::{Node, NodeKind, NodeView};
use crate::text;

verus! {

// ---------------------------------------------------------------------------
// Times as text
// ---------------------------------------------------------------------------

/// Whether a point in time lies in the years 1970 to 9999 and is no leap second.
pub open spec fn is_plain_time(t: Timestamp) -> bool {
    0 <= t.secs < 253_402_300_800 && t.nanos < 1_000_000_000
}

/// A point in time as RFC 3339 text in UTC, where it can be told.
pub uninterp spec fn rfc3339_text(secs: i64, nanos: u32) -> Option<Seq<char>>;

/// `chrono::DateTime::from_timestamp` and `DateTime::to_rfc3339`: the time as
/// RFC 3339 text in UTC. There is a text for every time of the years 1970 to
/// 9999, and no text holds a quotation mark. What the text is, is left to the name.
#[verifier::external_body]
fn write_rfc3339(secs: i64, nanos: u32) -> (r: Option<String>)
    ensures
        document::opt_view(r) == rfc3339_text(secs, nanos),
        0 <= secs < 253_402_300_800 && nanos < 1_000_000_000 ==> r is Some,
        r matches Some(s) ==> !s@.contains('"'),
{
    let time = chrono::DateTime::from_timestamp(secs, nanos)?;
    Some(time.to_rfc3339())
}

/// The seconds and nanoseconds that an RFC 3339 text stands for, if it is one.
pub uninterp spec fn rfc3339_time(s: Seq<char>) -> Option<(i64, u32)>;

/// `chrono::DateTime::parse_from_rfc3339`, with `DateTime::timestamp` and
/// `DateTime::timestamp_subsec_nanos`: the time that the text stands for. The text
/// of a time of the years 1970 to 9999 is read back as that time. Which other
/// texts are times is left to the name.
#[verifier::external_body]
fn read_rfc3339(s: &str) -> (r: Option<(i64, u32)>)
    ensures
        r == rfc3339_time(s@),
        forall|secs: i64, nanos: u32|
            0 <= secs < 253_402_300_800 && nanos < 1_000_000_000 && #[trigger] rfc3339_text(
                secs,
                nanos,
            ) == Some(s@) ==> r == Some((secs, nanos)),
{
    let time = chrono::DateTime::parse_from_rfc3339(s).ok()?;
    Some((time.timestamp(), time.timestamp_subsec_nanos()))
}

/// Year, month and day.
pub const DATE_FORMAT: &'static str = "%Y-%m-%d";

/// A point in time in UTC as text of the given format, where it can be told.
pub uninterp spec fn time_text(secs: i64, nanos: u32, format: Seq<char>) -> Option<Seq<char>>;

/// `chrono::DateTime::from_timestamp` and `DateTime::format`: the time in UTC as
/// text. Only the one format is asked for: one that `chrono` does not know would
/// panic. What the text is, is left to the name.
#[verifier::external_body]
fn write_time(secs: i64, nanos: u32, format: &str) -> (r: Option<String>)
    requires
        format@ == DATE_FORMAT@,
    ensures
        document::opt_view(r) == time_text(secs, nanos, format@),
{
    let time = chrono::DateTime::from_timestamp(secs, nanos)?;
    Some(time.format(format).to_string())
}

impl Timestamp {
    /// The point in time as RFC 3339 text in UTC, where it can be told.
    pub fn to_rfc3339(&self) -> (r: Option<String>)
        ensures
            document::opt_view(r) == rfc3339_text(self.secs, self.nanos),
            is_plain_time(*self) ==> r is Some,
            r matches Some(s) ==> !s@.contains('"'),
    {
        write_rfc3339(self.secs, self.nanos)
    }

    /// The point in time that an RFC 3339 text stands for.
    pub fn parse_rfc3339(s: &str) -> (r: Option<Timestamp>)
        ensures
            match rfc3339_time(s@) {
                Some((secs, nanos)) => r == Some(Timestamp { secs, nanos }),
                None => r is None,
            },
            forall|t: Timestamp|
                is_plain_time(t) && #[trigger] rfc3339_text(t.secs, t.nanos) == Some(s@) ==> r
                    == Some(t),
    {
        match read_rfc3339(s) {
            Some((secs, nanos)) => Some(Timestamp { secs, nanos }),
            None => None,
        }
    }

    /// The point in time as a date in UTC, where it can be told.
    pub fn date(&self) -> (r: Option<String>)
        ensures
            document::opt_view(r) == time_text(self.secs, self.nanos, DATE_FORMAT@),
    {
        write_time(self.secs, self.nanos, DATE_FORMAT)
    }
}

// ---------------------------------------------------------------------------
// Frontmatter as JSON
// ---------------------------------------------------------------------------

/// A character inside a JSON string.
pub open spec fn escaped(c: char) -> Seq<char> {
    let u = c as u32;
    if c == '"' {
        seq!['\\', '"']
    } else if c == '\\' {
        seq!['\\', '\\']
    } else if u == 8 {
        seq!['\\', 'b']
    } else if u == 9 {
        seq!['\\', 't']
    } else if u == 10 {
        seq!['\\', 'n']
    } else if u == 12 {
        seq!['\\', 'f']
    } else if u == 13 {
        seq!['\\', 'r']
    } else if u < 32 {
        seq!['\\', 'u', '0', '0', document::hex_digit(u as int / 16), document::hex_digit(
            u as int % 16,
        )]
    } else {
        seq![c]
    }
}

/// The inside of a JSON string.
pub open spec fn all_escaped(s: Seq<char>) -> Seq<char>
    decreases s.len(),
{
    if s.len() == 0 {
        Seq::empty()
    } else {
        all_escaped(s.drop_last()) + escaped(s.last())
    }
}

/// A text as a JSON string.
pub open spec fn json_string(s: Seq<char>) -> Seq<char> {
    seq!['"'] + all_escaped(s) + seq!['"']
}

/// `serde_json::to_string` of a string: the text between quotation marks, with
/// quotation marks, backslashes and control characters escaped.
#[verifier::external_body]
fn quote_json(s: &str) -> (r: String)
    ensures
        r@ == json_string(s@),
{
    serde_json::to_string(s).unwrap_or_default()
}

/// The members of a JSON object, in the order of their keys; none where the text
/// is no JSON object.
pub uninterp spec fn json_fields(json: Seq<char>) -> Seq<(Seq<char>, Option<Seq<char>>, Seq<char>)>;

/// `serde_json::from_str` into an ordered map from strings to JSON values: each
/// member as its key, its text where the value is a string, and its JSON. A map
/// holds each key once, in their order, and the JSON of a string is the string
/// quoted. An object of strings, written in the order of its keys, is read back
/// as it was. What any other text holds is left to the name, and so is whether a
/// number is read back as it was written.
#[verifier::external_body]
fn json_members(json: &str) -> (r: Vec<(String, Option<String>, String)>)
    ensures
        document::entry_views(r@) == json_fields(json@),
        document::is_ordered(document::entry_views(r@)),
        document::is_quoted(document::entry_views(r@)),
        forall|fields: Seq<FieldView>| #[trigger]
            json_object(fields) == json@ && are_texts(fields) ==> document::entry_views(r@)
                == fields,
{
    serde_json::from_str::<std::collections::BTreeMap<String, serde_json::Value>>(json)
        .unwrap_or_default()
        .into_iter()
        .map(|(key, value)| (key, value.as_str().map(String::from), value.to_string()))
        .collect()
}

/// A field as a member of a JSON object.
pub open spec fn json_member(f: FieldView) -> Seq<char> {
    json_string(f.0) + ":"@ + f.2
}

/// The first `n` fields as members of a JSON object.
pub open spec fn members_upto(fields: Seq<FieldView>, n: int) -> Seq<char>
    decreases n,
{
    if n <= 0 {
        Seq::empty()
    } else if n == 1 {
        json_member(fields[0])
    } else {
        members_upto(fields, n - 1) + ","@ + json_member(fields[n - 1])
    }
}

/// Whether all fields are strings, in the order of their keys.
pub open spec fn are_texts(fields: Seq<FieldView>) -> bool {
    &&& document::is_ordered(fields)
    &&& document::is_quoted(fields)
    &&& forall|i: int| 0 <= i < fields.len() ==> (#[trigger] fields[i]).1 is Some
}

/// Frontmatter as a JSON object.
pub open spec fn json_object(fields: Seq<FieldView>) -> Seq<char> {
    "{"@ + members_upto(fields, fields.len() as int) + "}"@
}

impl Frontmatter {
    /// The frontmatter as a JSON object.
    pub fn to_json(&self) -> (r: String)
        ensures
            r@ == json_object(self@),
    {
        let mut out = "{".to_owned();
        let n: usize = self.fields.len();
        let mut i: usize = 0;
        assert("{"@ + members_upto(self@, 0) =~= "{"@);
        while i < n
            invariant
                i <= n == self.fields@.len(),
                out@ == "{"@ + members_upto(self@, i as int),
            decreases n - i,
        {
            let ghost before = out@;
            if i > 0 {
                out.append(",");
            }
            let key = quote_json(self.fields[i].key.as_str());
            out.append(key.as_str());
            out.append(":");
            out.append(self.fields[i].value.json.as_str());
            assert(self@[i as int] == self.fields@[i as int]@);
            i += 1;
            assert(out@ =~= "{"@ + members_upto(self@, i as int));
        }
        out.append("}");
        out
    }

    /// The frontmatter that a JSON object holds; none where the text is no JSON
    /// object. Frontmatter of strings is read back as it was written.
    pub fn from_json(json: &str) -> (r: Frontmatter)
        ensures
            r@ == json_fields(json@),
            document::is_ordered(r@),
            document::is_quoted(r@),
            forall|fields: Seq<FieldView>| #[trigger]
                json_object(fields) == json@ && are_texts(fields) ==> r@ == fields,
    {
        document::fields_of(json_members(json))
    }
}

// ---------------------------------------------------------------------------
// Rows
// ---------------------------------------------------------------------------

/// A document as a row of text.
#[derive(Debug)]
pub struct DocumentRow {
    pub id: String,
    pub path: String,
    pub collection: String,
    pub title: String,
    pub content: String,
    pub frontmatter_json: String,
    pub added_at: String,
    pub content_hash: String,
}

/// The document that a row stands for. Frontmatter that is no JSON object is
/// left out, and a time that cannot be read is `now`.
pub open spec fn document_of_row(row: DocumentRow, now: Timestamp) -> DocumentView {
    DocumentView {
        id: row.id@,
        path: row.path@,
        collection: row.collection@,
        title: row.title@,
        content: row.content@,
        frontmatter: json_fields(row.frontmatter_json@),
        added_at: match rfc3339_time(row.added_at@) {
            Some((secs, nanos)) => Timestamp { secs, nanos },
            None => now,
        },
        content_hash: row.content_hash@,
    }
}

/// Whether a row is that of a document.
pub open spec fn is_row_of(row: DocumentRow, doc: DocumentView) -> bool {
    &&& row.id@ == doc.id
    &&& row.path@ == doc.path
    &&& row.collection@ == doc.collection
    &&& row.title@ == doc.title
    &&& row.content@ == doc.content
    &&& row.frontmatter_json@ == json_object(doc.frontmatter)
    &&& Some(row.added_at@) == rfc3339_text(doc.added_at.secs, doc.added_at.nanos)
    &&& row.content_hash@ == doc.content_hash
}

/// The document that a row stands for. A document of the years 1970 to 9999 whose
/// frontmatter is made up of strings is read back from its row as it was.
pub fn row_to_document(row: DocumentRow, now: Timestamp) -> (r: Document)
    ensures
        r@ == document_of_row(row, now),
        forall|doc: DocumentView| #[trigger]
            is_row_of(row, doc) && is_plain_time(doc.added_at) ==> r@ == (DocumentView {
                frontmatter: json_fields(json_object(doc.frontmatter)),
                ..doc
            }),
        forall|doc: DocumentView| #[trigger]
            is_row_of(row, doc) && is_plain_time(doc.added_at) && are_texts(doc.frontmatter)
                ==> r@ == doc,
{
    let added_at = match Timestamp::parse_rfc3339(row.added_at.as_str()) {
        Some(t) => t,
        None => now,
    };
    let frontmatter = Frontmatter::from_json(row.frontmatter_json.as_str());
    Document {
        id: row.id,
        path: row.path,
        collection: row.collection,
        title: row.title,
        content: row.content,
        frontmatter,
        added_at,
        content_hash: row.content_hash,
    }
}

/// The row of a document, or `None` where its time cannot be told.
pub fn document_to_row(doc: &Document) -> (r: Option<DocumentRow>)
    ensures
        match r {
            Some(row) => is_row_of(row, doc@),
            None => rfc3339_text(doc.added_at.secs, doc.added_at.nanos) is None,
        },
        is_plain_time(doc.added_at) ==> r is Some,
{
    let added_at = match doc.added_at.to_rfc3339() {
        Some(s) => s,
        None => {
            return None;
        },
    };
    Some(
        DocumentRow {
            id: doc.id.clone(),
            path: doc.path.clone(),
            collection: doc.collection.clone(),
            title: doc.title.clone(),
            content: doc.content.clone(),
            frontmatter_json: doc.frontmatter.to_json(),
            added_at,
            content_hash: doc.content_hash.clone(),
        },
    )
}

/// The node that a row stands for.
pub fn row_to_node(
    id: String,
    label: String,
    kind: &str,
    doc_id: Option<String>,
    frequency: i64,
) -> (r: Node)
    ensures
        r@ == (NodeView {
            id: id@,
            label: label@,
            kind: graph::kind_named(kind@),
            doc_id: document::opt_view(doc_id),
            frequency: frequency as u32,
        }),
{
    Node { id, label, kind: NodeKind::from_str(kind), doc_id, frequency: frequency as u32 }
}

// ---------------------------------------------------------------------------
// Lists as JSON
// ---------------------------------------------------------------------------

/// The contents of a list of members.
pub open spec fn member_views(v: Seq<(String, Option<String>)>) -> Seq<
    (Seq<char>, Option<Seq<char>>),
> {
    Seq::new(v.len(), |i: int| (v[i].0@, document::opt_view(v[i].1)))
}

/// The contents of a list of lists of members.
pub open spec fn object_views(v: Seq<Vec<(String, Option<String>)>>) -> Seq<
    Seq<(Seq<char>, Option<Seq<char>>)>,
> {
    Seq::new(v.len(), |i: int| member_views(v[i]@))
}

/// A list of objects as indented JSON; each member is a string, or null.
pub uninterp spec fn indented_json(objects: Seq<Seq<(Seq<char>, Option<Seq<char>>)>>) -> Seq<char>;

/// `serde_json::to_string_pretty` of a list of objects whose members are strings
/// or null. How the text is laid out is left to the name.
#[verifier::external_body]
pub(crate) fn write_objects(objects: &Vec<Vec<(String, Option<String>)>>) -> (r: String)
    ensures
        r@ == indented_json(object_views(objects@)),
{
    let list: Vec<serde_json::Map<String, serde_json::Value>> = objects.iter().map(
        |members| members.iter().map(
            |(key, value)| (key.clone(), serde_json::Value::from(value.clone())),
        ).collect(),
    ).collect();
    serde_json::to_string_pretty(&list).unwrap_or_default()
}

} // verus!
