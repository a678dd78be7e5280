use ydcli_rs::html::{find_tags, strip_html};
use ydcli_rs::http::url_encode;
use ydcli_rs::model;
use ydcli_rs::text::is_whitespace;

#[test]
fn whitespace_matches_char_is_whitespace() {
    for u in 0u32..=0x10FFFF {
        if let Some(c) = char::from_u32(u) {
            assert_eq!(is_whitespace(c), c.is_whitespace(), "U+{u:04X}");
        }
    }
}

#[test]
fn nested_same_tag_law() {
    assert_eq!(find_tags("<b><b>hi</b></b>", "b", ""), vec!["<b>hi</b>"]);
    assert_eq!(find_tags("<span><span>x > y</span></span>", "span", ""), vec!["<span>x > y</span>"]);
}

#[test]
fn found_texts_are_pieces_of_the_page() {
    let html = "<ul><li>a<li>b</li></li><li/><li x='1'>c</li></ul>";
    let found = find_tags(html, "li", "");
    assert_eq!(found, vec!["a<li>b</li>", "", "c"]);
    for piece in found {
        assert!(html.contains(piece));
    }
}

#[test]
fn no_markup_no_tags() {
    assert!(find_tags("plain text > with symbols", "div", "").is_empty());
}

#[test]
fn strip_output_is_collapsed() {
    for raw in ["  a \n\n b\t", "<p> x </p><p>y</p>", "&nbsp;&nbsp;", "a&nbsp; b", "\u{3000}x\u{a0}"] {
        let t = strip_html(raw);
        assert!(!t.starts_with(' ') && !t.ends_with(' '), "{raw:?} -> {t:?}");
        assert!(!t.contains("  "), "{raw:?} -> {t:?}");
        assert!(t.chars().all(|c| c == ' ' || !c.is_whitespace()), "{raw:?} -> {t:?}");
    }
}

#[test]
fn plain_text_passes_through() {
    assert_eq!(strip_html("a  b\tc"), "a b c");
    assert_eq!(strip_html("世界；地球"), "世界；地球");
}

fn url_decode(s: &str) -> Vec<u8> {
    let b = s.as_bytes();
    let mut out = Vec::new();
    let mut i = 0;
    while i < b.len() {
        if b[i] == b'%' {
            out.push(u8::from_str_radix(&s[i + 1..i + 3], 16).unwrap());
            i += 3;
        } else {
            out.push(b[i]);
            i += 1;
        }
    }
    out
}

#[test]
fn url_encoding_round_trip() {
    for s in ["", "world", "你好", "a b/c?d=e&f", "~._-", "%41", "Ünïcödé 🎉"] {
        let e = url_encode(s);
        assert!(e.chars().all(|c| c.is_ascii_alphanumeric() || "-_.~%".contains(c)));
        assert_eq!(url_decode(&e), s.as_bytes());
    }
    assert_eq!(url_encode("%41"), "%2541");
}

#[test]
fn plain_page_has_no_data() {
    let page = "no markup at all";
    assert!(model::Paraphrase::parse(page).is_empty());
    assert!(model::Pronounce::parse(page).is_empty());
    assert!(model::Variant::readable(page));
    assert!(model::Variant::parse(page).is_empty());
    assert!(model::Example::parse(page).is_empty());
    assert!(ydcli_rs::Paraphrase::parse(page).is_empty());
    assert!(ydcli_rs::Pronounce::parse(page).is_empty());
    assert!(ydcli_rs::Variant::parse(page).is_empty());
    assert!(ydcli_rs::Example::parse(page).is_empty());
}

#[test]
fn read_texts_are_nonempty() {
    let html = r#"<div id="phrsListTab"><div class="trans-container"><ul>
        <li> </li><li>a</li><li><b></b></li></ul><p> </p><p>b</p></div></div>"#;
    assert_eq!(model::Paraphrase::parse(html).entries(), &vec!["a".to_string()]);
    assert_eq!(model::Variant::parse(html).forms(), &vec!["b".to_string()]);
}

#[test]
fn region_pronunciations_are_words() {
    let html = r#"<span class="pronounce">英 /a b/ x</span><span class="pronounce">only</span>"#;
    let p = ydcli_rs::Pronounce::parse(html);
    assert_eq!(p.entries().len(), 1);
    assert_eq!(p.entries()[0].region, "英");
    assert_eq!(p.entries()[0].phonetic, "/a");
}

#[test]
fn example_senses_have_sentences() {
    let html = r#"<div class="collinsToggle"><li><span class="additional">V</span>
        <div class="collinsMajorTrans"><p>go</p></div>
        <div class="examples"><p> </p></div><div class="examples"><p>Go!</p><p></p></div></li></div>"#;
    let e = ydcli_rs::Example::parse(html);
    assert_eq!(e.entries().len(), 1);
    assert_eq!(e.entries()[0].groups(), &vec![vec!["Go!".to_string()]]);
}

#[test]
fn english_page_render() {
    let html = r#"<span class="pronounce"><span>英</span><span>/wɜːld/</span></span>
        <div id="phrsListTab"><div class="trans-container"><ul><li>n. 世界</li></ul>
        <p>复数：worlds</p></div></div>
        <div class="collinsToggle"><li><span class="additional">N-SING</span>
        <div class="collinsMajorTrans"><p>The world</p></div>
        <div class="examples"><p>Hi.</p></div></li></div>"#;
    assert_eq!(
        ydcli_rs::render_page(html, "world"),
        "\x1b[31mworld\x1b[0m\n\
         \x1b[0m英\x1b[0m \x1b[36m/wɜːld/\x1b[0m  \n\
         n. 世界\n\
         \x1b[36m复数：worlds\x1b[0m\n\
         \n\
         1. \x1b[32m[N-SING]\x1b[0m\x1b[0mThe world\x1b[0m\n\
         \x1b[32m  例: \x1b[0m\x1b[33mHi.\x1b[0m\n\
         \n\
         \x1b[0m\n"
    );
}

#[test]
fn found_texts_lie_between_their_tags() {
    let html = "x<li a='1'>one<li>two</li></li><li/>y<li class=\"k\">three</li><li>";
    let found = find_tags(html, "li", "");
    assert_eq!(found, vec!["one<li>two</li>", "", "three"]);
    let base = html.as_ptr() as usize;
    let mut last_end = 0;
    for piece in found {
        let start = piece.as_ptr() as usize - base;
        let end = start + piece.len();
        let before = &html[last_end..start];
        let open_at = before.rfind("<li").unwrap() + last_end;
        let open_tag = &html[open_at..start];
        assert!(open_tag.ends_with('>'));
        assert_eq!(open_tag.matches('>').count(), 1);
        if open_tag.ends_with("/>") && piece.is_empty() {
            last_end = end;
        } else {
            assert!(html[end..].starts_with("</li>"));
            last_end = end;
        }
    }
}
