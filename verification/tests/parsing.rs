use windows_features::import::{parse_import_line, parse_namespace_and_item, InvalidImportLine};
use windows_features::lines::{distinct_lines, import_lines, split_lines};
use windows_features::text::{
    chars_eq, chars_lt, chars_of, decimal_text, has_prefix, is_space_char, last_segment_of,
    make_key,
    parse_number, same_letter_char, statement_of, string_of, tail_matches, tokens_of,
    trim_text,
};

fn chars(s: &str) -> Vec<char> {
    s.chars().collect()
}

#[test]
fn item_import_is_parsed() {
    let r = parse_namespace_and_item("windows::Win32::Devices::Display::DisplayConfigGetDeviceInfo;");
    assert_eq!(
        r,
        Some((
            "Windows.Win32.Devices.Display".to_string(),
            Some("DisplayConfigGetDeviceInfo".to_string())
        ))
    );
}

#[test]
fn wildcard_import_is_parsed() {
    let r = parse_namespace_and_item("use windows::Win32::UI::WindowsAndMessaging::*;");
    assert_eq!(r, Some(("Windows.Win32.UI.WindowsAndMessaging".to_string(), None)));
}

#[test]
fn three_tokens_are_the_least() {
    assert_eq!(
        parse_namespace_and_item("windows::Win32::Foo"),
        Some(("Windows.Win32".to_string(), Some("Foo".to_string())))
    );
    assert_eq!(parse_namespace_and_item("windows::Foo;"), None);
    assert_eq!(parse_namespace_and_item("windows"), None);
    assert_eq!(parse_namespace_and_item(""), None);
}

#[test]
fn terminator_and_white_space_are_stripped() {
    assert_eq!(
        parse_namespace_and_item("  windows::A::B  ;;"),
        Some(("Windows.A".to_string(), Some("B".to_string())))
    );
    assert_eq!(
        parse_namespace_and_item("windows::A::B; "),
        Some(("Windows.A".to_string(), Some("B".to_string())))
    );
    assert_eq!(
        parse_namespace_and_item("windows::A::B; ;\t;\n"),
        Some(("Windows.A".to_string(), Some("B".to_string())))
    );
    assert_eq!(
        parse_namespace_and_item("windows::A::* ; "),
        Some(("Windows.A".to_string(), None))
    );
    assert_eq!(
        parse_namespace_and_item("windows::A::B;C;"),
        Some(("Windows.A".to_string(), Some("B;C".to_string())))
    );
    assert_eq!(
        parse_namespace_and_item("\u{3000}windows::A::\u{e9}t\u{e9}\u{a0};"),
        Some(("Windows.A".to_string(), Some("\u{e9}t\u{e9}".to_string())))
    );
}

#[test]
fn empty_tokens_are_tokens() {
    assert_eq!(
        parse_namespace_and_item("windows::::B"),
        Some(("Windows.".to_string(), Some("B".to_string())))
    );
    assert_eq!(
        parse_namespace_and_item("a:::b::c"),
        Some(("Windows.:b".to_string(), Some("c".to_string())))
    );
    assert_eq!(
        parse_namespace_and_item("windows::A::"),
        Some(("Windows.A".to_string(), Some("".to_string())))
    );
    assert_eq!(
        parse_namespace_and_item("windows::A::**"),
        Some(("Windows.A".to_string(), Some("**".to_string())))
    );
}

#[test]
fn import_line_is_parted_at_the_first_colon() {
    assert_eq!(
        parse_import_line("src/main.rs:use windows::Win32::Foo;"),
        Ok(("src/main.rs".to_string(), "use windows::Win32::Foo;".to_string()))
    );
    assert_eq!(parse_import_line(":"), Ok(("".to_string(), "".to_string())));
    assert_eq!(
        parse_import_line("no colon here"),
        Err(InvalidImportLine { line: "no colon here".to_string() })
    );
}

#[test]
fn lines_are_trimmed_and_kept_once() {
    let raw: Vec<String> =
        ["b ", " a", "b", "c", "a ", " b\t"].iter().map(|s| s.to_string()).collect();
    let kept = distinct_lines(&raw);
    assert_eq!(kept, vec!["b".to_string(), "a".to_string(), "c".to_string()]);
    assert_eq!(distinct_lines(&Vec::new()), Vec::<String>::new());
}

#[test]
fn a_text_is_parted_into_lines() {
    assert_eq!(split_lines("a\nb"), vec!["a", "b"]);
    assert_eq!(split_lines("a\nb\n"), vec!["a", "b"]);
    assert_eq!(split_lines("a\n\nb"), vec!["a", "", "b"]);
    assert_eq!(split_lines(""), Vec::<String>::new());
    assert_eq!(split_lines("\n"), vec![""]);
    assert_eq!(split_lines("a\r\nb"), vec!["a\r", "b"]);
    let output = "src/a.rs:use windows::A::B;\r\nsrc/b.rs:use windows::C::*;\nsrc/a.rs:use windows::A::B;  \n";
    assert_eq!(
        import_lines(output),
        vec!["src/a.rs:use windows::A::B;", "src/b.rs:use windows::C::*;"]
    );
    let expected: Vec<String> = output.lines().map(|l| l.trim().to_string()).collect();
    assert_eq!(import_lines(output), expected[..2].to_vec());
}

#[test]
fn white_space_is_what_std_calls_white_space() {
    let mut c: u32 = 0;
    while c <= 0x10FFFF {
        if let Some(ch) = char::from_u32(c) {
            assert_eq!(is_space_char(ch), ch.is_whitespace());
        }
        c += 1;
    }
}

#[test]
fn trimming_takes_white_space_from_both_sides() {
    assert_eq!(trim_text("  a b \t\n"), "a b");
    assert_eq!(trim_text(" \u{2003} "), "");
    assert_eq!(trim_text(""), "");
    assert_eq!(trim_text("x"), "x");
    assert_eq!(statement_of("  ab ;;"), "ab");
    assert_eq!(statement_of(";;;"), "");
    assert_eq!(statement_of("ab; "), "ab");
    assert_eq!(statement_of(" a;b ; ;"), "a;b");
    assert_eq!(statement_of(" ;a"), ";a");
    assert_eq!(statement_of(" \n "), "");
    for text in ["  ab ;;", "ab; ", "\u{85}x\u{2028};", " ; ", "\ta\r\n", "a ;\u{a0}; "] {
        let bare = text.trim_end_matches(|c: char| c == ';' || c.is_whitespace()).trim_start();
        assert_eq!(statement_of(text), bare);
        assert_eq!(statement_of(&statement_of(text)), bare);
        assert_eq!(trim_text(text), text.trim());
    }
}

#[test]
fn tokens_lie_between_double_colons() {
    assert_eq!(tokens_of("a::bc::d"), vec!["a", "bc", "d"]);
    assert_eq!(tokens_of(""), vec![""]);
    assert_eq!(tokens_of("::"), vec!["", ""]);
    assert_eq!(tokens_of("a:::b"), vec!["a", ":b"]);
    assert_eq!(tokens_of("a:b"), vec!["a:b"]);
    assert_eq!(tokens_of("::::"), vec!["", "", ""]);
    for text in ["a::bc::d", "", "::", "a:::b", ":::::", "x::\u{e9}::", ":a::b:"] {
        let expected: Vec<String> = text.split("::").map(|t| t.to_string()).collect();
        assert_eq!(tokens_of(text), expected);
    }
}

#[test]
fn numbers_are_decimal() {
    assert_eq!(parse_number("0"), Some(0));
    assert_eq!(parse_number("12"), Some(12));
    assert_eq!(parse_number("+5"), Some(5));
    assert_eq!(parse_number("007"), Some(7));
    assert_eq!(parse_number(""), None);
    assert_eq!(parse_number("+"), None);
    assert_eq!(parse_number("-1"), None);
    assert_eq!(parse_number(" 1"), None);
    assert_eq!(parse_number("1_0"), None);
    assert_eq!(parse_number("1a"), None);
    assert_eq!(parse_number("++1"), None);
    assert_eq!(parse_number(&usize::MAX.to_string()), Some(usize::MAX));
    assert_eq!(parse_number(&format!("{}0", usize::MAX)), None);
    assert_eq!(parse_number("99999999999999999999999999"), None);
    for text in ["0", "12", "+5", "007", "", "+", "-1", " 1", "1a", "18446744073709551616"] {
        assert_eq!(parse_number(text), text.parse::<usize>().ok());
    }
}

#[test]
fn numbers_are_written_as_they_are_read() {
    assert_eq!(decimal_text(0), "0");
    assert_eq!(decimal_text(7), "7");
    assert_eq!(decimal_text(10), "10");
    assert_eq!(decimal_text(9056), "9056");
    assert_eq!(decimal_text(usize::MAX), usize::MAX.to_string());
    for n in [0usize, 1, 9, 10, 99, 100, 12345, usize::MAX] {
        assert_eq!(parse_number(&decimal_text(n)), Some(n));
    }
}

#[test]
fn order_is_by_code_point() {
    assert!(chars_lt(&chars(""), &chars("a")));
    assert!(!chars_lt(&chars("a"), &chars("")));
    assert!(!chars_lt(&chars("a"), &chars("a")));
    assert!(chars_lt(&chars("a"), &chars("ab")));
    assert!(chars_lt(&chars("Z"), &chars("a")));
    assert!(chars_lt(&chars("ab"), &chars("b")));
    assert!(chars_lt(&chars("z"), &chars("\u{e9}")));
    assert!(chars_lt(&chars("abc"), &chars("abd")));
    assert!(!chars_lt(&chars("abd"), &chars("abc")));
    for (a, b) in [("", ""), ("a", "B"), ("\u{10000}", "\u{ffff}"), ("x.y", "x-y")] {
        assert_eq!(chars_lt(&chars(a), &chars(b)), a < b);
        assert_eq!(chars_lt(&chars(b), &chars(a)), b < a);
    }
    assert!(chars_eq(&chars("abc"), &chars("abc")));
    assert!(!chars_eq(&chars("abc"), &chars("abd")));
    assert!(!chars_eq(&chars("abc"), &chars("ab")));
    assert_eq!(chars_of("h\u{e9}"), vec!['h', '\u{e9}']);
}

#[test]
fn last_segment_follows_the_last_dot() {
    assert_eq!(last_segment_of("Windows.Win32.Foo"), "Foo");
    assert_eq!(last_segment_of("Foo"), "Foo");
    assert_eq!(last_segment_of("Foo."), "");
    assert_eq!(last_segment_of(""), "");
    assert_eq!(last_segment_of(".a.b"), "b");
    assert_eq!(string_of(&chars("abcdef"), 2, 4), "cd");
    assert_eq!(string_of(&chars("abcdef"), 3, 3), "");
}

#[test]
fn names_are_held_against_each_other() {
    assert!(tail_matches(&chars("A.Foo"), 2, &chars("Foo"), false));
    assert!(!tail_matches(&chars("A.Foo"), 2, &chars("foo"), false));
    assert!(tail_matches(&chars("A.Foo"), 2, &chars("fOO"), true));
    assert!(!tail_matches(&chars("A.Foo"), 2, &chars("Fo"), true));
    assert!(!tail_matches(&chars("A.Fo@"), 2, &chars("Fo`"), true));
    assert!(!tail_matches(&chars("A.[x"), 2, &chars("{x"), true));
    assert!(same_letter_char('a', 'A'));
    assert!(same_letter_char('Z', 'z'));
    assert!(!same_letter_char('@', '`'));
    assert!(!same_letter_char('\u{e9}', '\u{c9}'));
    for a in 0u8..128 {
        for b in 0u8..128 {
            assert_eq!(same_letter_char(a as char, b as char), a.eq_ignore_ascii_case(&b));
        }
    }
}

#[test]
fn keys_and_prefixes() {
    assert_eq!(make_key("Windows.A", "Item"), "Windows.A.Item");
    assert!(has_prefix(&chars("Foo.Bar"), &chars("Foo.")));
    assert!(!has_prefix(&chars("Foo.Bar"), &chars("Foo.Ba.")));
    assert!(has_prefix(&chars("Foo"), &chars("")));
    assert!(!has_prefix(&chars("Fo"), &chars("Foo")));
}
