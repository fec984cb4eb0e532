use lpad::lpad;
use std::borrow::Cow;

fn count_lf(text: &str) -> usize {
    text.chars().filter(|c| *c == '\n').count()
}

#[test]
fn it_works() {
    assert_eq!(lpad("hello\nworld", " "), " hello\n world");
    assert_eq!(lpad("hello\nworld\n", " "), " hello\n world\n");
    assert_eq!(lpad("hello\nworld\n", " "), " hello\n world\n");
    assert_eq!(lpad("hello\r\nworld", " "), " hello\r\n world");
    assert_eq!(lpad("hello\r\nworld\r\n", " "), " hello\r\n world\r\n");
    assert_eq!(
        lpad("hello\r\nworld\r\n", " aaa "),
        " aaa hello\r\n aaa world\r\n"
    );
}

#[test]
fn two_lines_without_final_line_feed() {
    assert_eq!(lpad("hello\nworld", " "), " hello\n world");
}

#[test]
fn two_lines_with_final_line_feed() {
    assert_eq!(lpad("hello\nworld\n", " "), " hello\n world\n");
}

#[test]
fn carriage_returns_stay_with_their_line() {
    assert_eq!(lpad("hello\r\nworld", " "), " hello\r\n world");
    assert_eq!(lpad("hello\r\nworld\r\n", " "), " hello\r\n world\r\n");
}

#[test]
fn longer_pad_string() {
    assert_eq!(
        lpad("hello\r\nworld\r\n", " aaa "),
        " aaa hello\r\n aaa world\r\n"
    );
}

#[test]
fn lone_carriage_return_is_content() {
    assert_eq!(lpad("a\rb", "> "), "> a\rb");
    assert_eq!(lpad("\r", "> "), "> \r");
    assert_eq!(lpad("a\n\rb", "> "), "> a\n> \rb");
}

#[test]
fn empty_base_is_one_empty_line() {
    assert_eq!(lpad("", "X"), "X");
    assert_eq!(lpad("", " aaa "), " aaa ");
}

#[test]
fn single_line_feed_is_one_empty_line_and_its_end() {
    assert_eq!(lpad("\n", "X"), "X\n");
}

#[test]
fn single_line() {
    assert_eq!(lpad("hello", "> "), "> hello");
    assert_eq!(lpad("hello\n", "> "), "> hello\n");
}

#[test]
fn empty_pad_is_identity() {
    for base in [
        "",
        "\n",
        "\n\n",
        "hello",
        "hello\n",
        "hello\nworld",
        "hello\r\nworld\r\n",
        "\nhello\n\nworld\n\n",
        "h\u{e9}llo\nw\u{f6}rld",
    ] {
        assert_eq!(lpad(base, ""), base);
    }
}

#[test]
fn empty_pad_borrows_the_base() {
    let base = String::from("hello\nworld\n");
    match lpad(&base, "") {
        Cow::Borrowed(text) => {
            assert_eq!(text, "hello\nworld\n");
            assert_eq!(text.as_ptr(), base.as_ptr());
            assert_eq!(text.len(), base.len());
        }
        Cow::Owned(_) => panic!("an empty pad string must not copy the base text"),
    }
}

#[test]
fn nonempty_pad_gives_an_owned_text() {
    assert!(matches!(lpad("hello", " "), Cow::Owned(_)));
    assert!(matches!(lpad("", " "), Cow::Owned(_)));
    assert!(matches!(lpad("\n", " "), Cow::Owned(_)));
}

#[test]
fn blank_lines_are_padded() {
    assert_eq!(lpad("a\n\nb", "X"), "Xa\nX\nXb");
    assert_eq!(lpad("\na", "X"), "X\nXa");
    assert_eq!(lpad("\n\na\n", "X"), "X\nX\nXa\n");
}

#[test]
fn only_one_final_line_feed_is_set_apart() {
    assert_eq!(lpad("a\n\n", "X"), "Xa\nX\n");
    assert_eq!(lpad("a\n\n\n", "X"), "Xa\nX\nX\n");
}

#[test]
fn base_of_line_feeds_only() {
    assert_eq!(lpad("\n\n", "X"), "X\nX\n");
    assert_eq!(lpad("\n\n\n", "X"), "X\nX\nX\n");
    assert_eq!(lpad("\n\n\n\n", "ab"), "ab\nab\nab\nab\n");
}

#[test]
fn mixed_line_endings() {
    assert_eq!(lpad("a\r\nb\nc\r\n", "\t"), "\ta\r\n\tb\n\tc\r\n");
}

#[test]
fn characters_of_several_bytes() {
    assert_eq!(
        lpad("h\u{e9}llo\nw\u{f6}rld\n", "\u{2192} "),
        "\u{2192} h\u{e9}llo\n\u{2192} w\u{f6}rld\n"
    );
    assert_eq!(
        lpad("\u{1f600}\n\u{1f600}", "\u{4e2d}"),
        "\u{4e2d}\u{1f600}\n\u{4e2d}\u{1f600}"
    );
}

#[test]
fn characters_that_hold_ten_are_no_line_feeds() {
    // None of these is a line feed, though each has 0x0A somewhere in its number.
    let base = "\u{10a}\u{a0a}\u{100a}\u{1000a}\u{a00}\u{a0000}";
    assert_eq!(lpad(base, "X"), format!("X{}", base));
    let two = format!("{}\n{}", base, base);
    assert_eq!(lpad(&two, "X"), format!("X{}\nX{}", base, base));
}

#[test]
fn line_feed_count_is_kept() {
    for base in [
        "",
        "\n",
        "\n\n",
        "\n\n\n",
        "a",
        "a\n",
        "a\n\n",
        "a\nb",
        "a\r\nb\r\n",
        "\na\n\nb\n\n",
        "h\u{e9}llo\nw\u{f6}rld",
    ] {
        for pad in ["", " ", "X", " aaa ", "\r", "\u{2192}"] {
            let out = lpad(base, pad);
            assert_eq!(count_lf(&out), count_lf(base), "{:?} {:?}", base, pad);
        }
    }
}

#[test]
fn line_feeds_of_the_pad_are_added_once_a_line() {
    assert_eq!(lpad("a", "\n"), "\na");
    assert_eq!(lpad("a\nb\n", "-\n"), "-\na\n-\nb\n");
    assert_eq!(count_lf(&lpad("a\nb\n", "-\n")), 2 + 2 * 1);
    assert_eq!(count_lf(&lpad("a\nb\nc", "\n\n")), 2 + 3 * 2);
}

#[test]
fn length_is_base_and_one_pad_a_line() {
    assert_eq!(lpad("", "abc").len(), 3);
    assert_eq!(lpad("\n", "abc").len(), 1 + 3);
    assert_eq!(lpad("hello\nworld", "abc").len(), 11 + 2 * 3);
    assert_eq!(lpad("hello\nworld\n", "abc").len(), 12 + 2 * 3);
    assert_eq!(lpad("a\n\n\nb\n", " ").len(), 6 + 4);
}

#[test]
fn padding_twice_pads_every_line_twice() {
    for base in ["", "\n", "a", "a\n", "a\nb", "a\r\nb\r\n", "\n\na\n\n"] {
        let once = lpad(base, "X");
        let twice = lpad(&once, "X");
        assert_eq!(twice, lpad(base, "XX"), "{:?}", base);
        assert_ne!(twice, once, "{:?}", base);
    }
    assert_eq!(lpad(&lpad("hello\nworld\n", "X"), "X"), "XXhello\nXXworld\n");
}

#[test]
fn second_pad_goes_in_front_of_the_first() {
    let once = lpad("a\nb\n", "1");
    assert_eq!(lpad(&once, "2"), "21a\n21b\n");
    assert_eq!(lpad(&once, "2"), lpad("a\nb\n", "21"));
}

#[test]
fn every_line_begins_with_the_pad() {
    let base = "one\ntwo\r\n\nfour\n";
    let out = lpad(base, ">> ");
    let padded_lines: Vec<&str> = out.strip_suffix('\n').unwrap().split('\n').collect();
    let base_lines: Vec<&str> = base.strip_suffix('\n').unwrap().split('\n').collect();
    assert_eq!(padded_lines.len(), base_lines.len());
    for (padded, line) in padded_lines.iter().zip(base_lines.iter()) {
        assert_eq!(*padded, format!(">> {}", line));
    }
}

#[test]
fn many_lines() {
    let mut base = String::new();
    let mut expected = String::new();
    for i in 0..50_000 {
        let line = format!("line {}", i);
        base.push_str(&line);
        base.push('\n');
        expected.push_str("    ");
        expected.push_str(&line);
        expected.push('\n');
    }
    assert_eq!(lpad(&base, "    "), expected);
}

#[test]
fn one_long_line() {
    let base = "x".repeat(1_000_000);
    let out = lpad(&base, "> ");
    assert_eq!(out.len(), 1_000_002);
    assert!(out.starts_with("> x"));
    assert!(out.ends_with('x'));
}
