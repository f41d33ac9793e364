use markstore::fetch::{
    decode_entities, extract_title, html_to_text, page_from_html, remove_block_tag, replace_tag,
};

fn chars(s: &str) -> Vec<char> {
    s.chars().collect()
}

fn text(v: Vec<char>) -> String {
    v.into_iter().collect()
}

#[test]
fn entities_are_decoded_in_turn() {
    assert_eq!(text(decode_entities(&chars("a &lt;b&gt; &quot;c&quot; &#39;&apos;"))), "a <b> \"c\" ''");
    assert_eq!(text(decode_entities(&chars("&mdash;&ndash;&hellip;&laquo;&raquo;"))), "—–…«»");
    assert_eq!(text(decode_entities(&chars("&amp;lt;"))), "<");
    assert_eq!(text(decode_entities(&chars("x&nbsp;y &copy;"))), "x y &copy;");
    assert_eq!(text(decode_entities(&chars("plain"))), "plain");
}

#[test]
fn blocks_are_removed_in_any_letter_case() {
    let html = "a<SCRIPT src='x'>bad</Script>b<script>worse</script>c";
    assert_eq!(text(remove_block_tag(&chars(html), "script")), "abc");
    assert_eq!(text(remove_block_tag(&chars("a<nav>rest"), "nav")), "a");
    assert_eq!(text(remove_block_tag(&chars("a</nav>b"), "nav")), "a</nav>b");
    assert_eq!(text(remove_block_tag(&chars("a<navigator>b</nav>c"), "nav")), "a<navigator>b</nav>c");
    assert_eq!(text(remove_block_tag(&chars("a<nav\nid=n>b</nav>c"), "nav")), "ac");
}

#[test]
fn titles_are_found_and_decoded() {
    assert_eq!(extract_title("<TITLE lang='en'> A &amp; B </TITLE>"), Some("A & B".to_string()));
    assert_eq!(extract_title("<title>  </title>"), None);
    assert_eq!(extract_title("<title>open"), None);
    assert_eq!(extract_title("<title"), None);
    assert_eq!(extract_title("none"), None);
}

#[test]
fn pages_become_text() {
    let html = "<html><head><title>T</title><style>p{}</style></head><body>\
                <h1>Head</h1><p>One <b>two</b>.</p><ul><li>a</li><li>b</li></ul></body></html>";
    assert_eq!(html_to_text(html), "T\n\n# >Head\n\n>One two.\n- >a\n- >b".replace('>', ""));
}

#[test]
fn tags_go_with_their_attributes() {
    assert_eq!(html_to_text("<p class=\"x\">Hi</p>"), "Hi");
    assert_eq!(html_to_text("<P>A<BR>B<br/>C<br />D"), "A\nB\nC\nD");
    assert_eq!(html_to_text("<H2 id='a' class='b'>Head</H2><p\n>text"), "## Head\n\ntext");
    assert_eq!(html_to_text("<ul><li value=3>a<li>b</ul>"), "- a\n- b");
    assert_eq!(html_to_text("a<p unclosed"), "a");
}

#[test]
fn tag_names_are_taken_whole() {
    assert_eq!(html_to_text("<pre>x</pre>"), "x");
    assert_eq!(html_to_text("<thead>x</thead>"), "x");
    assert_eq!(html_to_text("<link rel=stylesheet href=s>x"), "x");
    assert_eq!(html_to_text("<navigator>x</navigator>"), "x");
    assert_eq!(html_to_text("<picture><param>x<track><divan>y"), "xy");
    assert_eq!(extract_title("<titlebar>no</titlebar><title>yes</title>"), Some("yes".to_string()));
    assert_eq!(text(replace_tag(&chars("<p><pre><P a=b>"), "p", "-")), "-<pre>-");
}

#[test]
fn readable_text_is_kept_as_it_is() {
    let html = "<h1>T</h1>\n\n\n\n<p>a  b\t</p> <div>c\r\n</div><p></p><p></p><p></p>d  ";
    let once = html_to_text(html);
    assert_eq!(html_to_text(&once), once);
    assert!(!once.contains('<') && !once.contains('>'));
}

#[test]
fn blank_lines_are_limited() {
    let html = "<p>a</p><p></p><p></p><p></p><p>b</p>";
    assert_eq!(html_to_text(html), "a\n\n\nb");
    assert!(!html_to_text(html).contains("\n\n\n\n"));
}

#[test]
fn pages_are_stored_with_frontmatter() {
    let page = page_from_html("https://e.org/x", "<title>A \"b\"</title><div>c</div>");
    assert_eq!(page.title, "A \"b\"");
    assert_eq!(
        page.document("2024-01-02T03:04:05+00:00"),
        "---\ntitle: \"A \\\"b\\\"\"\nsource: \"https://e.org/x\"\nfetched_at: \"2024-01-02T03:04:05+00:00\"\n---\n\n# A \"b\"\n\nA \"b\"\nc"
    );
}

#[test]
fn pages_without_title_are_known_by_their_address() {
    let page = page_from_html("https://e.org/x", "hello");
    assert_eq!(page.title, "https://e.org/x");
    assert!(page.document("t").ends_with("# https://e.org/x\n\nhello"));
}
