use record_diff::Diff;

fn none() -> Vec<&'static str> {
    Vec::new()
}

#[test]
fn text_without_marker_lines_is_one_record() {
    assert_eq!(Diff::seperate("  hello\nworld \n"), vec!["hello\nworld"]);
    assert_eq!(Diff::seperate("one line"), vec!["one line"]);
}

#[test]
fn blank_text_has_no_record() {
    assert_eq!(Diff::seperate(""), none());
    assert_eq!(Diff::seperate(" \n\t \r\n"), none());
}

#[test]
fn marker_lines_alone_give_no_record() {
    assert_eq!(Diff::seperate("**a\n**b\n**c"), none());
    assert_eq!(Diff::seperate("**"), none());
    assert_eq!(Diff::seperate("\n**a\n\n**b\n"), none());
}

#[test]
fn label_never_shows_in_the_record() {
    assert_eq!(Diff::seperate("**row 1.**\n  body text \n"), vec!["body text"]);
    assert_eq!(Diff::seperate("**\nbody"), vec!["body"]);
    assert_eq!(Diff::seperate("***\nbody\nmore"), vec!["body\nmore"]);
}

#[test]
fn marker_needs_two_stars_at_the_start_of_a_line() {
    assert_eq!(Diff::seperate("a **b\nc"), vec!["a **b\nc"]);
    assert_eq!(Diff::seperate("a\n*b\nc"), vec!["a\n*b\nc"]);
    assert_eq!(Diff::seperate("a\n **b\nc"), vec!["a\n **b\nc"]);
    assert_eq!(Diff::seperate("a\n* *b\nc"), vec!["a\n* *b\nc"]);
    assert_eq!(Diff::seperate("a\n*"), vec!["a\n*"]);
}

#[test]
fn bare_marker_parts_two_records() {
    assert_eq!(Diff::seperate("a\n**\nb"), vec!["a", "b"]);
}

#[test]
fn text_is_trimmed_before_it_is_parted() {
    assert_eq!(Diff::seperate("  **x\nfoo"), vec!["foo"]);
    assert_eq!(Diff::seperate("\t \n  **x\nfoo\n**y  \n"), vec!["foo"]);
}

#[test]
fn neighbouring_marker_lines_leave_no_empty_record() {
    assert_eq!(Diff::seperate("a\n**1\n**2\n\n  \n**3\nb"), vec!["a", "b"]);
}

#[test]
fn records_keep_their_inner_lines() {
    let input = "**1\nfirst line\n  second line\n\nfourth line\n**2\nnext";
    assert_eq!(
        Diff::seperate(input),
        vec!["first line\n  second line\n\nfourth line", "next"]
    );
}

#[test]
fn equal_records_are_all_kept() {
    assert_eq!(Diff::seperate("a\n**1\na\n**2\na"), vec!["a", "a", "a"]);
}

#[test]
fn carriage_returns_are_trimmed_with_the_record() {
    assert_eq!(Diff::seperate("a\r\n**m\r\nb\r\nc\r\n"), vec!["a", "b\r\nc"]);
}

#[test]
fn text_beyond_ascii_is_cut_at_characters() {
    let input = "h\u{e9}llo\n**\u{fc}ber\nw\u{f6}rld \u{2713}\n**\u{1f600}\n\u{1d11e}\u{1f600}";
    assert_eq!(
        Diff::seperate(input),
        vec!["h\u{e9}llo", "w\u{f6}rld \u{2713}", "\u{1d11e}\u{1f600}"]
    );
    assert_eq!(Diff::seperate("\u{e9}\n**"), vec!["\u{e9}"]);
    assert_eq!(Diff::seperate("\u{20ac}*\n*\u{20ac}"), vec!["\u{20ac}*\n*\u{20ac}"]);
}

#[test]
fn records_are_slices_of_the_document() {
    let input = String::from("  first \n**1\n second");
    let rows = Diff::seperate(&input);
    assert_eq!(rows, vec!["first", "second"]);
    let at = |row: &str| row.as_ptr() as usize - input.as_ptr() as usize;
    assert_eq!(at(rows[0]), 2);
    assert_eq!(at(rows[1]), 14);
}

#[test]
fn white_space_is_what_the_standard_library_trims() {
    let mut text = String::new();
    for code in 0..=0x10ffff_u32 {
        let Some(c) = char::from_u32(code) else {
            continue;
        };
        text.clear();
        text.push(c);
        text.push('x');
        text.push(c);
        let rows = Diff::seperate(&text);
        if c.is_whitespace() {
            assert_eq!(rows, vec!["x"], "U+{code:04X}");
        } else {
            assert_eq!(rows, vec![text.as_str()], "U+{code:04X}");
        }
        assert_eq!(rows, vec![text.trim()], "U+{code:04X}");
    }
}

#[test]
fn each_white_space_character_is_trimmed() {
    let spaces = [
        0x09, 0x0a, 0x0b, 0x0c, 0x0d, 0x20, 0x85, 0xa0, 0x1680, 0x2000, 0x2001, 0x2002, 0x2003,
        0x2004, 0x2005, 0x2006, 0x2007, 0x2008, 0x2009, 0x200a, 0x2028, 0x2029, 0x202f, 0x205f,
        0x3000_u32,
    ];
    for code in spaces {
        let c = char::from_u32(code).unwrap();
        let text = format!("{c}{c}a{c}b{c}");
        assert_eq!(Diff::seperate(&text), vec![format!("a{c}b")], "U+{code:04X}");
    }
    let others = [
        0x00, 0x08, 0x0e, 0x1c, 0x1f, 0x21, 0x7f, 0x84, 0x86, 0x9f, 0xa1, 0x167f, 0x1681, 0x180e,
        0x1fff, 0x200b, 0x200c, 0x2027, 0x202a, 0x202e, 0x2030, 0x205e, 0x2060, 0x2fff, 0x3001,
        0xfeff, 0x1f600_u32,
    ];
    for code in others {
        let c = char::from_u32(code).unwrap();
        let text = format!("{c}a{c}");
        assert_eq!(Diff::seperate(&text), vec![text.as_str()], "U+{code:04X}");
    }
}

#[test]
fn white_space_beyond_ascii_is_trimmed() {
    assert_eq!(
        Diff::seperate("\u{2003}first\u{3000}\n**x\n\u{a0}second\u{85}"),
        vec!["first", "second"]
    );
    assert_eq!(Diff::seperate("\u{200b}a\u{feff}"), vec!["\u{200b}a\u{feff}"]);
    assert_eq!(Diff::seperate("\u{1f}a\u{180e}"), vec!["\u{1f}a\u{180e}"]);
}
