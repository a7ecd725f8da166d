use record_diff::text::trim;

#[test]
fn trim_takes_white_space_from_both_ends() {
    assert_eq!(trim("  a b  "), "a b");
    assert_eq!(trim("\n\ta\r\n"), "a");
    assert_eq!(trim("a"), "a");
    assert_eq!(trim("a  "), "a");
    assert_eq!(trim("  a"), "a");
}

#[test]
fn trim_of_a_blank_text_is_empty() {
    assert_eq!(trim(""), "");
    assert_eq!(trim(" "), "");
    assert_eq!(trim(" \n\t\r\u{a0}\u{3000}\u{2028}"), "");
}

#[test]
fn trim_keeps_white_space_inside() {
    assert_eq!(trim(" a \n b\u{a0}c "), "a \n b\u{a0}c");
}

#[test]
fn trim_reads_characters_of_every_length() {
    assert_eq!(trim("\u{85}\u{1680}\u{e9}\u{20ac}\u{1f600}\u{2003}\u{3000}"), "\u{e9}\u{20ac}\u{1f600}");
    assert_eq!(trim("\u{1f600}"), "\u{1f600}");
    assert_eq!(trim("\u{3000}\u{1f600}\u{3000}x\u{3000}"), "\u{1f600}\u{3000}x");
    assert_eq!(trim("\u{7ff}\u{800}\u{ffff}\u{10000}\u{10ffff}"), "\u{7ff}\u{800}\u{ffff}\u{10000}\u{10ffff}");
}

#[test]
fn trim_agrees_with_the_standard_library() {
    let samples = [
        "",
        " ",
        "\u{feff} a",
        "\u{200b}",
        " \u{2009}caf\u{e9}\u{202f}\n",
        "\r\n**row\r\n",
        "\u{1c}\u{1d}\u{1e}\u{1f} x \u{1f}",
        "\u{2000}\u{2001}\u{2002}\u{2003}\u{2004}\u{2005}\u{2006}\u{2007}\u{2008}\u{2009}\u{200a}x\u{205f}",
    ];
    for text in samples {
        assert_eq!(trim(text), text.trim());
    }
}
