use markstore::db::{ChunkMatch, Db};
use markstore::document::{parse_frontmatter, Document, Frontmatter, Timestamp};
use markstore::search::{
    compare_values, field_value, fts5_query, fts_search, page_results, parse_query, parse_where,
    where_matches, NumericComparison, QueryKind, WhereOp,
};

fn numeric(a: f64, b: f64) -> Option<NumericComparison> {
    Some(NumericComparison {
        near: (a - b).abs() < 1e-10,
        far: (a - b).abs() >= 1e-10,
        less: a < b,
        equal: a == b,
        greater: a > b,
    })
}

fn doc(id: &str, title: &str, secs: i64) -> Document {
    let (fm, _) = parse_frontmatter(
        "---\ndate: 2024-05-01\nyear: 2024\ndraft: true\nnone: null\nlist: [1]\nmap: {a: 1}\n---\n",
    );
    Document {
        id: id.to_string(),
        path: format!("{}.md", id),
        collection: "papers".to_string(),
        title: title.to_string(),
        content: "c".to_string(),
        frontmatter: fm,
        added_at: Timestamp { secs, nanos: 0 },
        content_hash: id.to_string(),
    }
}

#[test]
fn query_prefixes_are_parsed() {
    match parse_query("  hello  ") {
        QueryKind::Lex(q) => assert_eq!(q, "hello"),
        _ => panic!("kind"),
    }
    match parse_query("lex:  a b ") {
        QueryKind::Lex(q) => assert_eq!(q, "a b"),
        _ => panic!("kind"),
    }
    match parse_query("vec: how") {
        QueryKind::Vec(q) => assert_eq!(q, "how"),
        _ => panic!("kind"),
    }
    match parse_query("intent: why ") {
        QueryKind::Intent(q) => assert_eq!(q, "why"),
        _ => panic!("kind"),
    }
    match parse_query("Vec: x") {
        QueryKind::Lex(q) => assert_eq!(q, "Vec: x"),
        _ => panic!("kind"),
    }
}

#[test]
fn filters_are_parsed() {
    let w = parse_where(" date >= 2024-01 ").unwrap();
    assert_eq!((w.field.as_str(), w.op, w.value.as_str()), ("date", WhereOp::AtLeast, "2024-01"));
    assert_eq!(parse_where("a<=b").unwrap().op, WhereOp::AtMost);
    assert_eq!(parse_where("a!=b").unwrap().op, WhereOp::Unequal);
    assert_eq!(parse_where("a>b").unwrap().op, WhereOp::Greater);
    assert_eq!(parse_where("a<b").unwrap().op, WhereOp::Less);
    assert_eq!(parse_where("a=b").unwrap().op, WhereOp::Equal);
    assert!(parse_where("nothing here").is_none());
    let late = parse_where("a=b>=c").unwrap();
    assert_eq!((late.field.as_str(), late.value.as_str()), ("a=b", "c"));
}

#[test]
fn field_values_are_found() {
    let d = doc("x", "T", 1);
    assert_eq!(field_value(&d, "collection"), "papers");
    assert_eq!(field_value(&d, "path"), "x.md");
    assert_eq!(field_value(&d, "title"), "T");
    assert_eq!(field_value(&d, "date"), "2024-05-01");
    assert_eq!(field_value(&d, "year"), "2024");
    assert_eq!(field_value(&d, "draft"), "true");
    assert_eq!(field_value(&d, "none"), "");
    assert_eq!(field_value(&d, "list"), "");
    assert_eq!(field_value(&d, "map"), "");
    assert_eq!(field_value(&d, "missing"), "");
}

#[test]
fn texts_are_compared_in_order() {
    assert!(compare_values("b", WhereOp::Greater, "a", None));
    assert!(compare_values("a", WhereOp::Less, "ab", None));
    assert!(compare_values("a", WhereOp::AtLeast, "a", None));
    assert!(compare_values("a", WhereOp::AtMost, "a", None));
    assert!(compare_values("a", WhereOp::Equal, "a", None));
    assert!(!compare_values("a", WhereOp::Unequal, "a", None));
    assert!(!compare_values("10", WhereOp::Greater, "9", None));
}

#[test]
fn numbers_are_compared_as_numbers() {
    assert!(compare_values("10", WhereOp::Greater, "9", numeric(10.0, 9.0)));
    assert!(compare_values("1.0", WhereOp::Equal, "1", numeric(1.0, 1.0)));
    assert!(compare_values("1", WhereOp::Unequal, "2", numeric(1.0, 2.0)));
    assert!(compare_values("2", WhereOp::AtLeast, "2.0", numeric(2.0, 2.0)));
    assert!(compare_values("2", WhereOp::AtMost, "3", numeric(2.0, 3.0)));
    assert!(!compare_values("2", WhereOp::Less, "2", numeric(2.0, 2.0)));
    assert!(!compare_values("NaN", WhereOp::Unequal, "1", numeric(f64::NAN, 1.0)));
}

#[test]
fn documents_are_filtered() {
    let d = doc("x", "Untitled", 1);
    assert!(where_matches(&d, "collection=papers", None));
    assert!(!where_matches(&d, "title!=Untitled", None));
    assert!(where_matches(&d, "date>2024-01", None));
    assert!(!where_matches(&d, "date>2024-06", None));
    assert!(where_matches(&d, "malformed", None));
    assert!(where_matches(&d, "year>=2023", numeric(2024.0, 2023.0)));
    assert!(!where_matches(&d, "year<2023", numeric(2024.0, 2023.0)));
}

fn store() -> Db {
    let mut db = Db::init();
    db.upsert_document(&doc("a", "Zeta", 10));
    db.upsert_document(&doc("b", "Alpha", 30));
    db.upsert_document(&doc("c", "Mid", 20));
    db
}

fn hits(ids: &[(&str, &str)]) -> Vec<ChunkMatch> {
    ids.iter()
        .map(|(id, title)| ChunkMatch {
            doc_id: id.to_string(),
            title: title.to_string(),
            snippet: None,
        })
        .collect()
}

#[test]
fn results_are_sorted_and_paged() {
    let db = store();
    let ranked = hits(&[("a", "Zeta"), ("b", "Alpha"), ("c", "Mid")]);
    let got = |limit: usize, offset: usize, sort: &str| -> Vec<String> {
        fts_search(&db, &ranked, limit, offset, None, false, sort)
            .into_iter()
            .map(|r| r.doc_id)
            .collect()
    };
    assert_eq!(got(10, 0, "relevance"), vec!["a", "b", "c"]);
    assert_eq!(got(10, 0, "date"), vec!["b", "c", "a"]);
    assert_eq!(got(10, 0, "title"), vec!["b", "c", "a"]);
    assert_eq!(got(10, 0, "other"), vec!["a", "b", "c"]);
    assert_eq!(got(1, 1, "relevance"), vec!["b"]);
    assert_eq!(got(2, 0, "title"), vec!["b", "c"]);
    assert_eq!(got(2, 2, "title"), vec!["a"]);
    assert!(got(5, 9, "relevance").is_empty());
    assert!(got(0, 0, "relevance").is_empty());
    assert_eq!(got(usize::MAX, 1, "relevance"), vec!["b", "c"]);
}

#[test]
fn repeats_take_no_place_on_a_page() {
    let db = store();
    let ranked = hits(&[("a", "Zeta"), ("a", "Zeta"), ("b", "Alpha"), ("a", "Zeta"), ("c", "Mid")]);
    for sort in ["relevance", "date", "title"] {
        let page = |limit: usize, offset: usize| -> Vec<String> {
            fts_search(&db, &ranked, limit, offset, None, false, sort)
                .into_iter()
                .map(|r| r.doc_id)
                .collect()
        };
        let all = page(10, 0);
        assert_eq!(all.len(), 3);
        for i in 0..3 {
            assert_eq!(page(1, i), vec![all[i].clone()]);
        }
        let mut joined = page(2, 0);
        joined.extend(page(2, 2));
        assert_eq!(joined, all);
    }
    let found = fts_search(&db, &ranked, 10, 0, None, false, "relevance");
    assert_eq!(page_results(&db, &found, 1, 1, "date").len(), 1);
    assert_eq!(page_results(&db, &found, 1, 1, "date")[0].doc_id, "c");
}

#[test]
fn empty_frontmatter_has_no_values() {
    let mut d = doc("x", "T", 1);
    d.frontmatter = Frontmatter::new();
    assert_eq!(field_value(&d, "year"), "");
    assert!(!where_matches(&d, "year>2023", None));
}

#[test]
fn excluded_terms_are_taken_out() {
    assert_eq!(fts5_query("attention -distraction"), "(attention) NOT distraction");
    assert_eq!(fts5_query("-b a  c -\"d e\""), "(a c) NOT b NOT \"d e\"");
    assert_eq!(fts5_query("\"a -b\" c*"), "\"a -b\" c*");
    assert_eq!(fts5_query("a OR b"), "a OR b");
    assert_eq!(fts5_query("a OR b -c"), "a OR b -c");
    assert_eq!(fts5_query("(a -b c) d"), "(a -b c) d");
    assert_eq!(fts5_query("-title : x"), "-title : x");
    assert_eq!(fts5_query("-{title content} : x"), "-{title content} : x");
    assert_eq!(fts5_query("title:a -b"), "(title:a) NOT b");
    assert_eq!(fts5_query("a -\"b: (c)\""), "(a) NOT \"b: (c)\"");
    assert_eq!(fts5_query("-only"), "-only");
    assert_eq!(fts5_query("a -title:b"), "a -title:b");
    assert_eq!(fts5_query("a - b"), "a - b");
    assert_eq!(fts5_query(" "), " ");
}
