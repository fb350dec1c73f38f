use ultrapaper::text::{
    chars_of, last_position, position, same_chars, split_lines, string_of, trimmed, whitespace,
};

fn chars(s: &str) -> Vec<char> {
    s.chars().collect()
}

fn text(s: &[char]) -> String {
    s.iter().collect()
}

#[test]
fn whitespace_is_the_white_space_property() {
    let mut code: u32 = 0;
    while code <= 0x10ffff {
        if let Some(c) = char::from_u32(code) {
            assert_eq!(whitespace(c), c.is_whitespace(), "U+{:04X}", code);
        }
        code += 1;
    }
}

#[test]
fn whitespace_of_common_characters() {
    assert!(whitespace(' '));
    assert!(whitespace('\t'));
    assert!(whitespace('\n'));
    assert!(whitespace('\r'));
    assert!(whitespace('\u{a0}'));
    assert!(whitespace('\u{3000}'));
    assert!(!whitespace('a'));
    assert!(!whitespace('#'));
    assert!(!whitespace('\u{200b}'));
}

#[test]
fn trimmed_removes_whitespace_at_both_ends() {
    assert_eq!(text(trimmed(&chars("  a b \t"))), "a b");
    assert_eq!(text(trimmed(&chars("a"))), "a");
    assert_eq!(text(trimmed(&chars(""))), "");
    assert_eq!(text(trimmed(&chars(" \t\r\n "))), "");
    assert_eq!(text(trimmed(&chars("\u{a0}x\u{2003}"))), "x");
}

#[test]
fn trimmed_agrees_with_str_trim() {
    let samples = [
        "",
        " ",
        "abc",
        " abc",
        "abc ",
        "\tpreload = /a b/c.png\r",
        "  #  comment  ",
        "\u{1680}wide\u{205f}\u{3000}",
        "in ner",
    ];
    for sample in samples {
        assert_eq!(text(trimmed(&chars(sample))), sample.trim());
    }
}

#[test]
fn position_is_the_first_occurrence() {
    assert_eq!(position(&chars("a=b=c"), '='), 1);
    assert_eq!(position(&chars("=a"), '='), 0);
    assert_eq!(position(&chars("abc"), '='), 3);
    assert_eq!(position(&chars(""), '='), 0);
}

#[test]
fn last_position_is_the_last_occurrence() {
    assert_eq!(last_position(&chars("a.b.c"), '.'), Some(3));
    assert_eq!(last_position(&chars(".a"), '.'), Some(0));
    assert_eq!(last_position(&chars("abc"), '.'), None);
    assert_eq!(last_position(&chars(""), '.'), None);
}

#[test]
fn same_chars_compares_contents() {
    assert!(same_chars(&chars("preload"), &chars("preload")));
    assert!(same_chars(&chars(""), &chars("")));
    assert!(!same_chars(&chars("preload"), &chars("preloads")));
    assert!(!same_chars(&chars("preload"), &chars("preloaD")));
}

#[test]
fn chars_of_and_string_of_are_inverse() {
    let sample = "wallpaper = DP-1,/img/\u{e9}t\u{e9}.png";
    assert_eq!(chars_of(sample), chars(sample));
    assert_eq!(string_of(&chars_of(sample)), sample);
    assert_eq!(chars_of(""), Vec::<char>::new());
    assert_eq!(string_of(&[]), "");
}

#[test]
fn split_lines_ends_lines_at_line_feeds() {
    let lines_of = |s: &str| -> Vec<String> {
        let all = chars(s);
        split_lines(&all).iter().map(|l| text(l)).collect()
    };
    assert_eq!(lines_of(""), Vec::<String>::new());
    assert_eq!(lines_of("a"), vec!["a"]);
    assert_eq!(lines_of("a\n"), vec!["a"]);
    assert_eq!(lines_of("a\nb"), vec!["a", "b"]);
    assert_eq!(lines_of("a\n\nb\n"), vec!["a", "", "b"]);
    assert_eq!(lines_of("\n"), vec![""]);
    assert_eq!(lines_of("\n\n"), vec!["", ""]);
    assert_eq!(lines_of("a\r\nb"), vec!["a\r", "b"]);
}

#[test]
fn split_lines_agrees_with_str_lines_without_carriage_returns() {
    let samples = ["", "one", "one\ntwo", "one\ntwo\n", "\n\nx\n\n", "# c\npreload = a\n"];
    for sample in samples {
        let all = chars(sample);
        let got: Vec<String> = split_lines(&all).iter().map(|l| text(l)).collect();
        let want: Vec<String> = sample.lines().map(|l| l.to_string()).collect();
        assert_eq!(got, want);
    }
}
