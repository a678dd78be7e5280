use ydcli_rs::color::{styled, Color};

#[test]
fn display_formats_ansi() {
    assert_eq!(
        format!("{}hello{}", Color::Red.ansi(), Color::Reset.ansi()),
        "\x1b[31mhello\x1b[0m"
    );
}

#[test]
fn styled_wraps_text() {
    assert_eq!(styled("hi", Color::Green), "\x1b[32mhi\x1b[0m");
}

#[test]
fn color_display() {
    assert_eq!(
        format!("{}hello{}", ydcli_rs::Color::Red.ansi(), ydcli_rs::Color::Reset.ansi()),
        "\x1b[31mhello\x1b[0m"
    );
}

#[test]
fn styled_works() {
    assert_eq!(ydcli_rs::styled("hi", ydcli_rs::Color::Green), "\x1b[32mhi\x1b[0m");
}

#[test]
fn every_color_has_its_code() {
    let cases = [
        (Color::Red, "\x1b[31m"),
        (Color::Green, "\x1b[32m"),
        (Color::Yellow, "\x1b[33m"),
        (Color::Blue, "\x1b[34m"),
        (Color::Cyan, "\x1b[36m"),
        (Color::Gray, "\x1b[38;5;8m"),
        (Color::Magenta, "\x1b[35m"),
        (Color::Bold, "\x1b[1m"),
        (Color::Reset, "\x1b[0m"),
    ];
    for (c, code) in cases {
        assert_eq!(c.ansi(), code);
        assert_eq!(c.code(), code);
        assert_eq!(styled("x", c), format!("{code}x\x1b[0m"));
    }
}

#[test]
fn styled_empty_text() {
    assert_eq!(styled("", Color::Bold), "\x1b[1m\x1b[0m");
}
