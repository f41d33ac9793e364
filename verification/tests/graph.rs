use markstore::graph::{
    contains_stopword, enclosing_paragraph, extract_concepts, extract_graph, extract_tags,
    extract_wikilinks, graph_from, links_from, repeated_from, slug, Confidence, NodeKind,
};

#[test]
fn slug_normalises_label() {
    assert_eq!(slug("Hello World"), "hello_world");
    assert_eq!(slug("Multi--Word"), "multi_word");
}

#[test]
fn extract_wikilinks_basic() {
    let md = "See [[Attention]] and [[Multi-Head Attention|MHA]].";
    let links: Vec<String> = extract_wikilinks(md).into_iter().map(|(t, _)| t).collect();
    assert!(links.contains(&"Attention".to_string()));
    assert!(links.contains(&"Multi-Head Attention".to_string()));
}

#[test]
fn extract_wikilinks_skips_code_fences() {
    let md = "```\n[[NotALink]]\n```\n[[RealLink]]";
    let links: Vec<String> = extract_wikilinks(md).into_iter().map(|(t, _)| t).collect();
    assert!(!links.contains(&"NotALink".to_string()));
    assert!(links.contains(&"RealLink".to_string()));
}

#[test]
fn extract_tags_basic() {
    let md = "This is #rust and #machine-learning content.";
    let tags = extract_tags(md);
    assert!(tags.contains(&"rust".to_string()));
    assert!(tags.contains(&"machine-learning".to_string()));
}

#[test]
fn slug_handles_unicode_and_blank_labels() {
    assert_eq!(slug("  Ünïcode_Name 2 "), "u0000fcnu0000efcode_name_2");
    assert_eq!(slug("Ünder!"), "u0000fcnder");
    assert_eq!(slug("日本"), "u0065e5u00672c");
    assert_ne!(slug("日本"), slug("中国"));
    assert_ne!(slug("Café"), slug("Caf"));
    assert_eq!(slug("ПРИВЕТ"), slug("привет"));
    assert_eq!(slug("𝔘"), "u01d518");
    assert_eq!(slug("— … «»"), "");
    assert_eq!(slug("--"), "");
    assert_eq!(slug(""), "");
}

#[test]
fn links_carry_their_paragraph() {
    let md = "First paragraph.\n\nSee [[ Target | shown ]] here.\nMore.\n\nLast.";
    let links = extract_wikilinks(md);
    assert_eq!(links.len(), 1);
    assert_eq!(links[0].0, "Target");
    assert_eq!(links[0].1.as_deref(), Some("See [[ Target | shown ]] here.\nMore."));
}

#[test]
fn blank_targets_are_left_out() {
    assert!(extract_wikilinks("[[ ]] and [[|x]]").is_empty());
    let content: Vec<char> = "a [[b]]".chars().collect();
    let found = vec![
        ("[[ ]]".to_string(), Some(" ".to_string())),
        ("[[b]]".to_string(), Some("b".to_string())),
        ("[[c]]".to_string(), Some("c".to_string())),
        ("x".to_string(), None),
    ];
    assert_eq!(
        links_from(&content, 0, &content, &found),
        vec![("b".to_string(), Some("a [[b]]".to_string())), ("c".to_string(), None)]
    );
}

#[test]
fn equal_links_carry_their_own_paragraphs() {
    let first = ("A".to_string(), Some("First [[A]].".to_string()));
    let second = ("A".to_string(), Some("Second [[A]].".to_string()));
    assert_eq!(
        extract_wikilinks("First [[A]].\n\nSecond [[A]]."),
        vec![first.clone(), second.clone()]
    );
    assert_eq!(
        extract_wikilinks("```\n[[A]]\n```\n\nFirst [[A]].\r\n\nélan\n\nSecond [[A]]."),
        vec![first.clone(), second.clone()]
    );
    let content: Vec<char> = "x\n\n[[A]] [[A]]\n\ny".chars().collect();
    let line: Vec<char> = "[[A]] [[A]]".chars().collect();
    let one = ("[[A]]".to_string(), Some("A".to_string()));
    let found = vec![one.clone(), one.clone(), one];
    let links = links_from(&content, 3, &line, &found);
    assert_eq!(links[0].1.as_deref(), Some("[[A]] [[A]]"));
    assert_eq!(links[1].1.as_deref(), Some("[[A]] [[A]]"));
    assert_eq!(links[2].1, None);
}

#[test]
fn paragraphs_are_cut_to_their_first_characters() {
    let long: Vec<char> = "é".repeat(400).chars().collect();
    assert_eq!(enclosing_paragraph(&long, 10).map(|p| p.chars().count()), Some(300));
    let blank: Vec<char> = "a\n\n  \n\nb".chars().collect();
    assert_eq!(enclosing_paragraph(&blank, 4), None);
    assert_eq!(enclosing_paragraph(&blank, 0), Some("a".to_string()));
    assert_eq!(enclosing_paragraph(&blank, 7), Some("b".to_string()));
}

#[test]
fn tags_stand_after_white_space_outside_fences() {
    let md = "#start word#no # no #1no\n```\n#fenced\n```\n#end_Tag-2 #start";
    assert_eq!(extract_tags(md), vec!["start", "end_Tag-2", "start"]);
}

#[test]
fn concepts_are_repeated_phrases_without_stopwords() {
    let body = "Neural Network and Deep Learning Model.\nNeural Network here.\nThe Model is.\nThe Model is.\nDeep Learning Model again. Once Only.";
    assert_eq!(extract_concepts(body), vec!["Neural Network", "Deep Learning Model"]);
}

#[test]
fn fenced_phrases_do_not_count() {
    assert!(extract_concepts("Neural Network\n```\nNeural Network\n```").is_empty());
}

#[test]
fn stopwords_are_words_of_the_phrase() {
    assert!(contains_stopword("The Model"));
    assert!(contains_stopword("Model Every"));
    assert!(!contains_stopword("Theory Model"));
    assert!(!contains_stopword(""));
}

#[test]
fn repeated_phrases_come_in_order_of_appearance() {
    let phrases: Vec<String> =
        ["b", "a", "c", "a", "b", "a"].iter().map(|s| s.to_string()).collect();
    assert_eq!(repeated_from(&phrases), vec!["b", "a"]);
}

#[test]
fn graph_of_a_document() {
    let body = "[[Rust]] #Code #code\nMachine Learning. Machine Learning. My Title. My Title.";
    let (nodes, edges) = extract_graph("d1", "my title", body);
    let ids: Vec<&str> = nodes.iter().map(|n| n.id.as_str()).collect();
    assert_eq!(ids, vec!["doc_d1", "wikilink_rust", "tag_code", "concept_machine_learning"]);
    assert_eq!(nodes[0].kind, NodeKind::Document);
    assert_eq!(nodes[0].label, "my title");
    assert_eq!(nodes[0].doc_id.as_deref(), Some("d1"));
    assert_eq!(nodes[2].label, "#code");
    assert!(nodes.iter().all(|n| n.frequency == 1));
    let rels: Vec<(&str, &str, u32)> = edges
        .iter()
        .map(|e| (e.target.as_str(), e.relation.as_str(), e.weight))
        .collect();
    assert_eq!(
        rels,
        vec![
            ("wikilink_rust", "links_to", 1000),
            ("tag_code", "tagged", 800),
            ("tag_code", "tagged", 800),
            ("concept_machine_learning", "contains", 600),
        ]
    );
    assert!(edges.iter().all(|e| e.source == "doc_d1" && e.doc_id == "d1"));
    assert_eq!(edges[3].confidence, Confidence::Inferred);
    assert_eq!(edges[0].confidence, Confidence::Extracted);
    for e in &edges {
        assert!(nodes.iter().any(|n| n.id == e.target));
    }
}

#[test]
fn graph_from_given_parts() {
    let links = vec![
        ("A B".to_string(), Some("ctx".to_string())),
        ("a-b".to_string(), None),
    ];
    let tags = vec!["X".to_string(), "x".to_string()];
    let concepts = vec!["One Two".to_string(), "Some Title".to_string()];
    let (nodes, edges) = graph_from("d", "SOME TITLE", &links, &tags, &concepts);
    let ids: Vec<&str> = nodes.iter().map(|n| n.id.as_str()).collect();
    assert_eq!(ids, vec!["doc_d", "wikilink_a_b", "wikilink_a_b", "tag_x", "concept_one_two"]);
    assert_eq!(edges.len(), 5);
    assert_eq!(edges[0].context.as_deref(), Some("ctx"));
    assert_eq!(edges[1].context, None);
}

#[test]
fn kinds_and_confidences_round_trip() {
    for k in [NodeKind::Document, NodeKind::WikiLink, NodeKind::Tag, NodeKind::Concept] {
        assert_eq!(NodeKind::from_str(k.as_str()), k);
    }
    for c in [Confidence::Extracted, Confidence::Inferred, Confidence::Ambiguous] {
        assert_eq!(Confidence::from_str(c.as_str()), c);
    }
    assert_eq!(NodeKind::from_str("unknown"), NodeKind::WikiLink);
    assert_eq!(Confidence::from_str("unknown"), Confidence::Extracted);
    assert_eq!(NodeKind::WikiLink.as_str(), "wikilink");
    assert_eq!(Confidence::Ambiguous.as_str(), "AMBIGUOUS");
}
