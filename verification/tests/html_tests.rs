use ydcli_rs::html::{attr_matches, find_tags, strip_html};

#[test]
fn strip_removes_tags_and_decodes() {
    assert_eq!(strip_html("<p>hello &amp; world</p>"), "hello & world");
    assert_eq!(strip_html("  <b>bold</b>  "), "bold");
    assert_eq!(strip_html("a&#39;b"), "a'b");
}

#[test]
fn html_find_tags_nested_divs() {
    let html = "<div class=\"a\"><div class=\"b\">inner</div></div>";
    let outer = find_tags(html, "div", ".a");
    assert_eq!(outer.len(), 1);
    assert!(outer[0].contains("class=\"b\""));
}

#[test]
fn strip_html_removes_tags_and_decodes() {
    assert_eq!(strip_html("<p>hello &amp; world</p>"), "hello & world");
    assert_eq!(strip_html("  <b>bold</b>  "), "bold");
    assert_eq!(strip_html("a&#39;b"), "a'b");
}

#[test]
fn lib_find_tags_nested_divs() {
    let html = "<div class=\"a\"><div class=\"b\">inner</div></div>";
    let outer = find_tags(html, "div", ".a");
    assert_eq!(outer.len(), 1);
    assert!(outer[0].contains("class=\"b\""));
}

#[test]
fn find_tags_nested_content_is_exact() {
    let html = "<div><div>x</div></div><div>y</div>";
    assert_eq!(find_tags(html, "div", ""), vec!["<div>x</div>", "y"]);
}

#[test]
fn find_tags_self_closing_gives_empty() {
    assert_eq!(find_tags("<br/><br />", "br", ""), vec!["", ""]);
}

#[test]
fn find_tags_unclosed_is_skipped() {
    assert_eq!(find_tags("<p>never closed", "p", ""), Vec::<&str>::new());
    assert_eq!(find_tags("<p", "p", ""), Vec::<&str>::new());
}

#[test]
fn find_tags_by_id_and_substring() {
    let html = "<div id=\"x\">1</div><div id='y'>2</div><div data-k=\"v\">3</div>";
    assert_eq!(find_tags(html, "div", "#x"), vec!["1"]);
    assert_eq!(find_tags(html, "div", "#y"), vec!["2"]);
    assert_eq!(find_tags(html, "div", "data-k"), vec!["3"]);
    assert_eq!(find_tags(html, "div", ".none"), Vec::<&str>::new());
}

#[test]
fn find_tags_multibyte_content() {
    let html = "<li>世界；地球</li><li>领域</li>";
    assert_eq!(find_tags(html, "li", ""), vec!["世界；地球", "领域"]);
}

#[test]
fn attr_matches_forms() {
    assert!(attr_matches("<div class=\"a b\">", ".b"));
    assert!(attr_matches("<div class=\"x\" class=\"a b\">", ".a"));
    assert!(!attr_matches("<div class=\"ab\">", ".a"));
    assert!(!attr_matches("<div class=\"a>", ".a"));
    assert!(attr_matches("<div id=\"k\">", "#k"));
    assert!(attr_matches("<div id='k'>", "#k"));
    assert!(!attr_matches("<div id=\"kk\">", "#k"));
    assert!(attr_matches("<div anything>", "any"));
    assert!(attr_matches("<div>", ""));
    assert!(!attr_matches("<div class=\"a\">", "."));
}

#[test]
fn strip_html_entities_in_sequence() {
    assert_eq!(strip_html("&amp;lt;"), "&lt;");
    assert_eq!(strip_html("&lt;b&gt; &amp;amp;"), "<b> &amp;");
    assert_eq!(strip_html("&amp&lt"), "&amp&lt");
    assert_eq!(strip_html("&quot;x&quot; &gt; y"), "\"x\" > y");
    assert_eq!(strip_html("a&nbsp;&nbsp;b"), "a b");
}

#[test]
fn strip_html_separates_text_nodes() {
    assert_eq!(strip_html("<span>英</span><span>/wɜːld/</span>"), "英 /wɜːld/");
    assert_eq!(strip_html("\t a \n\u{3000} b  "), "a b");
    assert_eq!(strip_html(""), "");
    assert_eq!(strip_html("<b"), "");
}
