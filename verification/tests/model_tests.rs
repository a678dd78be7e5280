use ydcli_rs::model::{Example, Paraphrase, Pronounce, Variant};

const EMPTY: &str = "<html></html>";

#[test]
fn empty_html() {
    assert!(Paraphrase::parse(EMPTY).is_empty());
    assert!(Pronounce::parse(EMPTY).is_empty());
    assert!(Variant::parse(EMPTY).is_empty());
    assert!(Example::parse(EMPTY).is_empty());
}

#[test]
fn paraphrase() {
    let html = r#"<div id="phrsListTab"><div class="trans-container"><ul>
            <li>世界；地球；天下</li><li>领域；界</li>
        </ul></div></div>"#;
    let p = Paraphrase::parse(html);
    assert_eq!(p.entries().len(), 2);
    assert_eq!(p.entries()[0], "世界；地球；天下");
}

#[test]
fn pronounce() {
    let html = r#"<span class="pronounce"><span>英</span><span>/wɜːld/</span></span>
        <span class="pronounce"><span>美</span><span>/wɜːrld/</span></span>"#;
    let p = Pronounce::parse(html);
    assert_eq!(p.entries().len(), 2);
    assert_eq!(p.entries()[0].region, "英");
    assert_eq!(p.entries()[0].phonetic, "/wɜːld/");
}

#[test]
fn variant() {
    let html = r#"<div id="phrsListTab"><div class="trans-container">
            <p>复数：worlds</p></div></div>"#;
    assert_eq!(Variant::parse(html).forms().len(), 1);
}

#[test]
fn example_basic() {
    let html = r#"<div class="collinsToggle"><li>
            <span class="additional">N-SING</span>
            <div class="collinsMajorTrans"><p>The world is the planet</p></div>
            <div class="examples"><p>It's a small world.</p></div>
        </li></div>"#;
    assert!(!Example::parse(html).is_empty());
}

#[test]
fn chinese_paraphrase_from_word_groups() {
    let html = r#"<div id="phrsListTab"><div class="trans-container">
        <p class="wordGroup"><span class="contentTitle"><a href="/a">hello</a><a href="/b">hi</a></span></p>
        <p class="wordGroup"><span class="contentTitle">plain</span></p>
        </div></div>"#;
    let p = Paraphrase::parse(html);
    assert_eq!(p.entries(), &vec!["hello; hi".to_string(), "plain".to_string()]);
}

#[test]
fn chinese_phonetic_fallback() {
    let p = Pronounce::parse(r#"<span class="phonetic">[nǐ hǎo]</span>"#);
    assert_eq!(p.entries().len(), 1);
    assert_eq!(p.entries()[0].region, "");
    assert_eq!(p.entries()[0].phonetic, "[nǐ hǎo]");
    assert!(Pronounce::parse(r#"<span class="phonetic"> </span>"#).is_empty());
}

#[test]
fn variant_skips_word_groups() {
    let html = r#"<div id="phrsListTab"><div class="trans-container">
        <p class="wordGroup">你好</p><p>复数：worlds</p><p></p></div></div>"#;
    assert!(Variant::readable(html));
    assert_eq!(Variant::parse(html).forms(), &vec!["复数：worlds".to_string()]);
}

#[test]
fn variant_readability() {
    let bad = r#"<div id="phrsListTab"><div class="trans-container"><p</div></div>"#;
    assert!(!Variant::readable(bad));
    assert!(Variant::readable(EMPTY));
}

#[test]
fn bilingual_examples_fallback() {
    let html = r#"<div id="bilingual"><ul><li><p>你好</p><p>Hello</p></li><li></li></ul></div>"#;
    let e = Example::parse(html);
    assert_eq!(e.entries().len(), 1);
    let s = &e.entries()[0];
    assert_eq!(s.head(), "");
    assert_eq!(s.meaning(), "");
    assert_eq!(s.groups(), &vec![vec!["你好".to_string(), "Hello".to_string()]]);
    assert_eq!(
        e.render(),
        "\x1b[32m  例: \x1b[0m\x1b[33m你好\x1b[0m\n\x1b[32m       \x1b[0m\x1b[33mHello\x1b[0m\n\n\x1b[0m\n"
    );
    assert_eq!(Example::parse_bilingual(html).len(), 1);
    assert_eq!(Example::parse_collins(html).len(), 0);
}
