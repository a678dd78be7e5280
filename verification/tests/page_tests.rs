use ydcli_rs::{Example, Paraphrase, Pronounce, Variant};

const EMPTY_HTML: &str = "<html></html>";

#[test]
fn empty_html_parsing() {
    assert!(Paraphrase::parse(EMPTY_HTML).is_empty());
    assert!(Pronounce::parse(EMPTY_HTML).is_empty());
    assert!(Variant::parse(EMPTY_HTML).is_empty());
    assert!(Example::parse(EMPTY_HTML).is_empty());
}

#[test]
fn parse_paraphrase() {
    let html = r#"<div id="phrsListTab"><div class="trans-container"><ul>
            <li>世界；地球；天下</li>
            <li>领域；界</li>
        </ul></div></div>"#;
    let p = Paraphrase::parse(html);
    assert_eq!(p.entries().len(), 2);
    assert_eq!(p.entries()[0], "世界；地球；天下");
}

#[test]
fn parse_pronounce() {
    let html = r#"<span class="pronounce"><span>英</span><span>/wɜːld/</span></span>
        <span class="pronounce"><span>美</span><span>/wɜːrld/</span></span>"#;
    let p = Pronounce::parse(html);
    assert_eq!(p.entries().len(), 2);
    assert_eq!(p.entries()[0].region, "英");
    assert_eq!(p.entries()[0].phonetic, "/wɜːld/");
    assert_eq!(p.entries()[1].region, "美");
    assert_eq!(p.entries()[1].phonetic, "/wɜːrld/");
}

#[test]
fn parse_variant() {
    let html = r#"<div id="phrsListTab"><div class="trans-container">
            <p>复数：worlds</p>
        </div></div>"#;
    let v = Variant::parse(html);
    assert_eq!(v.forms().len(), 1);
}

#[test]
fn parse_example_basic() {
    let html = r#"<div class="collinsToggle"><li>
            <span class="additional">N-SING</span>
            <div class="collinsMajorTrans"><p>The world is the planet</p></div>
            <div class="examples"><p>It's a small world.</p></div>
        </li></div>"#;
    let e = Example::parse(html);
    assert!(!e.is_empty());
}

#[test]
fn example_fields_and_render() {
    let html = r#"<div class="collinsToggle"><li>
            <span class="additional">N-SING</span>
            <div class="collinsMajorTrans"><p>N-SING The world is the planet</p></div>
            <div class="examples"><p>It's a small world.</p><p>小世界</p></div>
        </li></div>"#;
    let e = Example::parse(html);
    assert_eq!(e.entries().len(), 1);
    let s = &e.entries()[0];
    assert_eq!(s.head(), "[N-SING]");
    assert_eq!(s.meaning(), " The world is the planet");
    assert_eq!(s.groups(), &vec![vec!["It's a small world.".to_string(), "小世界".to_string()]]);
    assert_eq!(
        e.render(),
        "1. \x1b[32m[N-SING]\x1b[0m\x1b[0m The world is the planet\x1b[0m\n\
         \x1b[32m  例: \x1b[0m\x1b[33mIt's a small world.\x1b[0m\n\
         \x1b[32m       \x1b[0m\x1b[33m小世界\x1b[0m\n\n\x1b[0m\n"
    );
}

#[test]
fn example_skips_items_missing_parts() {
    let html = r#"<div class="collinsToggle">
        <li><div class="collinsMajorTrans"><p>m</p></div><div class="examples"><p>s</p></div></li>
        <li><span class="additional">A</span><div class="examples"><p>s</p></div></li>
        <li><span class="additional">A</span><div class="collinsMajorTrans"><p>m</p></div></li>
        <li><span class="additional">A</span><span class="additional">B</span>
            <div class="collinsMajorTrans"><p>m</p></div><div class="examples"><p>s</p></div></li>
    </div>"#;
    let e = Example::parse(html);
    assert_eq!(e.entries().len(), 1);
    assert_eq!(e.entries()[0].head(), "B");
    assert_eq!(e.entries()[0].meaning(), "m");
}

#[test]
fn render_of_each_part() {
    let html = r#"<span class="pronounce">英 /a/</span>
        <div id="phrsListTab"><div class="trans-container"><ul><li>x</li></ul><p>f</p></div></div>"#;
    assert_eq!(Pronounce::parse(html).render(), "\x1b[0m英\x1b[0m \x1b[36m/a/\x1b[0m  \n");
    assert_eq!(Paraphrase::parse(html).render(), "x\n");
    assert_eq!(Variant::parse(html).render(), "\x1b[36mf\x1b[0m\n");
    assert_eq!(Pronounce::parse(EMPTY_HTML).render(), "");
    assert_eq!(Example::parse(EMPTY_HTML).render(), "\x1b[0m\n");
}

#[test]
fn whole_page_text() {
    assert_eq!(
        ydcli_rs::render_page(EMPTY_HTML, "w"),
        "\x1b[31mw\x1b[0m\n\n\x1b[0m\n"
    );
}
