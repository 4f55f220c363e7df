use glossy_codegen::text::{
    chars_of, find_pair_from, is_blank, is_white_space, push_decimal, push_text, same_text, slice_text,
    split_lines, string_of, trim_text_end,
};

fn chars(s: &str) -> Vec<char> {
    s.chars().collect()
}

fn lines(s: &str) -> Vec<String> {
    split_lines(&chars(s)).iter().map(|line| line.iter().collect()).collect()
}

fn trimmed(s: &str) -> String {
    let mut text = chars(s);
    trim_text_end(&mut text);
    text.into_iter().collect()
}

fn decimal(n: u128) -> String {
    let mut out = chars("n=");
    push_decimal(&mut out, n);
    out.into_iter().collect()
}

const SAMPLES: &[&str] = &[
    "",
    "\n",
    "a",
    "a\n",
    "a\r\n",
    "a\r",
    "a\rb\n",
    "\r\n",
    "\r\n\r\n",
    "a\n\nb",
    "a\n\r\nb\r\n",
    "a\r\r\nb",
    "  x  ",
    "x \t\n\r ",
    "x\u{a0}",
    "x\u{2003}\u{3000}\u{85}",
    "x\u{200b}",
    " \u{1680}\u{2028}\u{2029}\u{202f}\u{205f}",
    "caf\u{e9} \n",
];

#[test]
fn white_space_is_what_the_standard_library_calls_so() {
    for code in 0..=0x10ffffu32 {
        if let Some(c) = char::from_u32(code) {
            assert_eq!(is_white_space(c), c.is_whitespace(), "U+{:04X}", code);
        }
    }
}

#[test]
fn white_space_is_what_the_pattern_matcher_calls_so() {
    let one = regex::Regex::new(r"^\s$").unwrap();
    let mut buffer = String::new();
    for code in 0..=0x10ffffu32 {
        if let Some(c) = char::from_u32(code) {
            buffer.clear();
            buffer.push(c);
            assert_eq!(is_white_space(c), one.is_match(&buffer), "U+{:04X}", code);
        }
    }
}

#[test]
fn blank_is_what_the_empty_pattern_matches() {
    let empty = regex::Regex::new(r"^\s*$").unwrap();
    for sample in SAMPLES {
        assert_eq!(is_blank(&chars(sample)), empty.is_match(sample), "{:?}", sample);
    }
    assert!(is_blank(&chars("")));
    assert!(is_blank(&chars(" \t\u{3000}")));
    assert!(!is_blank(&chars(" . ")));
}

#[test]
fn lines_are_those_of_the_standard_library() {
    for sample in SAMPLES {
        let expected: Vec<String> = sample.lines().map(|line| line.to_string()).collect();
        assert_eq!(lines(sample), expected, "{:?}", sample);
    }
}

#[test]
fn lines_end_at_line_feeds() {
    assert_eq!(lines(""), Vec::<String>::new());
    assert_eq!(lines("\n"), vec![""]);
    assert_eq!(lines("a\n\nb"), vec!["a", "", "b"]);
    assert_eq!(lines("a\r\nb\n"), vec!["a", "b"]);
    assert_eq!(lines("a\r"), vec!["a\r"]);
    assert_eq!(lines("a\r\r\n"), vec!["a\r"]);
}

#[test]
fn end_is_trimmed_as_by_the_standard_library() {
    for sample in SAMPLES {
        assert_eq!(trimmed(sample), sample.trim_end(), "{:?}", sample);
    }
    assert_eq!(trimmed("  x \n\t "), "  x");
    assert_eq!(trimmed(" \n "), "");
}

#[test]
fn numbers_are_written_in_decimal() {
    assert_eq!(decimal(0), "n=0");
    assert_eq!(decimal(7), "n=7");
    assert_eq!(decimal(10), "n=10");
    assert_eq!(decimal(1234567890), "n=1234567890");
    assert_eq!(decimal(u128::MAX), format!("n={}", u128::MAX));
    for n in 0..2000u128 {
        assert_eq!(decimal(n), format!("n={}", n));
    }
}

#[test]
fn first_pair_is_found() {
    assert_eq!(find_pair_from(&chars("a */ b */"), '*', '/', 0), Some(2));
    assert_eq!(find_pair_from(&chars("*/"), '*', '/', 0), Some(0));
    assert_eq!(find_pair_from(&chars("* /"), '*', '/', 0), None);
    assert_eq!(find_pair_from(&chars("*"), '*', '/', 0), None);
    assert_eq!(find_pair_from(&chars(""), '*', '/', 0), None);
    assert_eq!(find_pair_from(&chars("//*"), '/', '*', 0), Some(1));
    for sample in ["x/*y", "/ * /*", "caf\u{e9}/*", "***/", "/", "/*/*"] {
        let expected = sample.find("/*").map(|at| sample[..at].chars().count());
        assert_eq!(find_pair_from(&chars(sample), '/', '*', 0), expected, "{:?}", sample);
    }
}

#[test]
fn texts_are_copied_and_compared() {
    let text = chars("caf\u{e9} au lait");
    assert_eq!(slice_text(&text, 5, 7), chars("au"));
    assert_eq!(slice_text(&text, 0, text.len()), text);
    assert_eq!(slice_text(&text, 3, 3), chars(""));
    assert!(same_text(&text, &chars("caf\u{e9} au lait")));
    assert!(!same_text(&text, &chars("cafe au lait")));
    assert!(!same_text(&text, &chars("caf\u{e9} au lai")));
    let mut out = chars("a");
    push_text(&mut out, &chars("bc"));
    assert_eq!(out, chars("abc"));
    assert_eq!(chars_of("caf\u{e9}"), vec!['c', 'a', 'f', '\u{e9}']);
    assert_eq!(string_of(&vec!['c', 'a', 'f', '\u{e9}']), "caf\u{e9}");
}
