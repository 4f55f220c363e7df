use glossy_codegen::comment::strip_comments;
use glossy_codegen::text::find_pair_from;
use glossy_codegen::scan::{patterns_compile, scan_one, scan_source};
use glossy_codegen::scanned::ScannedLine;

fn chars(s: &str) -> Vec<char> {
    s.chars().collect()
}

fn text(v: &[char]) -> String {
    v.iter().collect()
}

fn optional(v: &Option<Vec<char>>) -> Option<String> {
    v.as_ref().map(|t| text(t))
}

fn scanned(inside: bool, raw: &str) -> ScannedLine {
    assert!(patterns_compile());
    let line = scan_one(inside, chars(raw));
    assert_eq!(text(&line.raw), raw);
    line
}

fn code(raw: &str) -> (String, bool) {
    let line = scanned(false, raw);
    assert!(!line.swallowed);
    (text(&line.code), line.open_after)
}

fn version(raw: &str) -> Option<String> {
    optional(&scanned(false, raw).version)
}

fn target(raw: &str) -> Option<String> {
    optional(&scanned(false, raw).target)
}

#[test]
fn patterns_are_accepted() {
    assert!(patterns_compile());
}

#[test]
fn comments_that_end_on_the_line_are_taken_out() {
    assert_eq!(code("int a; // tail"), ("int a; ".to_string(), false));
    assert_eq!(code("int /* one */ a;"), ("int  a;".to_string(), false));
    assert_eq!(code("a /* b */ c /* d */ e"), ("a  c  e".to_string(), false));
    assert_eq!(code("a /* b // c */ d"), ("a  d".to_string(), false));
    assert_eq!(code("a // b /* c"), ("a ".to_string(), false));
    assert_eq!(code("a /**/ b // c // d"), ("a  b ".to_string(), false));
    assert_eq!(code("int a;"), ("int a;".to_string(), false));
    assert_eq!(code("a */ b"), ("a */ b".to_string(), false));
    assert_eq!(code(""), ("".to_string(), false));
}

#[test]
fn comment_opener_cuts_the_line_off() {
    assert_eq!(code("a /* b"), ("a ".to_string(), true));
    assert_eq!(code("/* b"), ("".to_string(), true));
    assert_eq!(code("a /* b */ c /* d"), ("a  c ".to_string(), true));
    assert_eq!(code("/*/ x"), ("".to_string(), true));
    assert_eq!(code("a /* b // c"), ("a ".to_string(), true));
}

#[test]
fn line_inside_a_comment_counts_from_the_end_of_the_comment() {
    let line = scanned(true, "b */ c");
    assert_eq!((text(&line.code), line.swallowed, line.open_after), (" c".to_string(), false, false));
    let line = scanned(true, "x */ y /* z");
    assert_eq!((text(&line.code), line.swallowed, line.open_after), (" y ".to_string(), false, true));
    let line = scanned(true, "*/");
    assert_eq!((text(&line.code), line.swallowed, line.open_after), ("".to_string(), false, false));
    let line = scanned(true, "a */ b */ c // d");
    assert_eq!((text(&line.code), line.swallowed, line.open_after), (" b */ c ".to_string(), false, false));
    let line = scanned(true, "still // inside /* it");
    assert_eq!((text(&line.code), line.swallowed, line.open_after), ("".to_string(), true, true));
    assert_eq!(line.version, None);
    assert_eq!(line.target, None);
    let line = scanned(true, "#include \"a.glsl\"");
    assert!(line.swallowed);
    assert_eq!(line.target, None);
}

#[test]
fn version_directive_is_recognised() {
    assert_eq!(version("#version 120"), Some("120".to_string()));
    assert_eq!(version("  #  version \t 330 core"), Some("330".to_string()));
    assert_eq!(version("#version 300es"), Some("300".to_string()));
    assert_eq!(version("#version 120 // old"), Some("120".to_string()));
    assert_eq!(version("/* v */ #version 120"), Some("120".to_string()));
    assert_eq!(version("#version"), None);
    assert_eq!(version("#version core"), None);
    assert_eq!(version("#version120"), None);
    assert_eq!(version("x #version 120"), None);
    assert_eq!(version("// #version 120"), None);
    assert_eq!(version("#Version 120"), None);
    assert_eq!(version("#version \u{661}\u{662}\u{660}"), Some("\u{661}\u{662}\u{660}".to_string()));
}

#[test]
fn inclusion_directive_is_recognised() {
    assert_eq!(target("#include \"a.glsl\""), Some("a.glsl".to_string()));
    assert_eq!(target("#include <a.glsl>"), Some("a.glsl".to_string()));
    assert_eq!(target("  #  include \t<lib/a b.glsl>  "), Some("lib/a b.glsl".to_string()));
    assert_eq!(target("#include \"a.glsl\" // it"), Some("a.glsl".to_string()));
    assert_eq!(target("/* it */ #include \"a.glsl\""), Some("a.glsl".to_string()));
    assert_eq!(target("#include \"a\" \"b\""), Some("a\" \"b".to_string()));
    assert_eq!(target("#include <<a>>"), Some("<a>".to_string()));
    assert_eq!(target("#include \"<a>\""), Some("<a>".to_string()));
    assert_eq!(target("#include \"a.glsl\" x"), None);
    assert_eq!(target("#include\"a.glsl\""), None);
    assert_eq!(target("#include \"\""), None);
    assert_eq!(target("#include <a.glsl"), None);
    assert_eq!(target("#include \"a.glsl>"), None);
    assert_eq!(target("#include a.glsl"), None);
    assert_eq!(target("x #include <a.glsl>"), None);
    assert_eq!(target("// #include <a.glsl>"), None);
    assert_eq!(target("#include \"caf\u{e9}.glsl\""), None);
    assert_eq!(target("#include \"a\tb\""), None);
    assert_eq!(target("#version 120"), None);
}

#[test]
fn comment_state_goes_from_line_to_line() {
    assert!(patterns_compile());
    let lines = scan_source("int a; /* one\n#include \"x\"\ntwo */ #include \"y\" /* three\n*/\r\n#version 120\n");
    let seen: Vec<(String, String, bool, bool)> = lines
        .iter()
        .map(|line| (text(&line.raw), text(&line.code), line.swallowed, line.open_after))
        .collect();
    assert_eq!(
        seen,
        vec![
            ("int a; /* one".to_string(), "int a; ".to_string(), false, true),
            ("#include \"x\"".to_string(), "".to_string(), true, true),
            ("two */ #include \"y\" /* three".to_string(), " #include \"y\" ".to_string(), false, true),
            ("*/".to_string(), "".to_string(), false, false),
            ("#version 120".to_string(), "#version 120".to_string(), false, false),
        ]
    );
    assert_eq!(optional(&lines[2].target), Some("y".to_string()));
    assert_eq!(optional(&lines[4].version), Some("120".to_string()));
    assert_eq!(lines[1].target, None);
    assert_eq!(scan_source(""), Vec::<ScannedLine>::new());
}

#[test]
fn comments_are_taken_out_as_the_comment_pattern_does() {
    let comment = regex::Regex::new(r"/\*.*?\*/|//.*").unwrap();
    let letters = ['/', '*', 'a', ' '];
    let mut samples = vec![String::new()];
    let mut from = 0;
    for _ in 0..7 {
        let upto = samples.len();
        for at in from..upto {
            for letter in letters {
                let mut longer = samples[at].clone();
                longer.push(letter);
                samples.push(longer);
            }
        }
        from = upto;
    }
    assert_eq!(samples.len(), 21845);
    for sample in &samples {
        let replaced = comment.replace_all(sample, "");
        let (expected, open) = match replaced.find("/*") {
            Some(at) => (replaced[..at].to_string(), true),
            None => (replaced.clone(), false),
        };
        let (code, open_after) = strip_comments(&chars(sample));
        assert_eq!((text(&code), open_after), (expected, open), "{:?}", sample);
    }
}

#[test]
fn comment_end_is_looked_for_behind_the_opener() {
    assert_eq!(find_pair_from(&chars("*/ */"), '*', '/', 0), Some(0));
    assert_eq!(find_pair_from(&chars("*/ */"), '*', '/', 1), Some(3));
    assert_eq!(find_pair_from(&chars("*/ */"), '*', '/', 4), None);
    assert_eq!(find_pair_from(&chars("*/"), '*', '/', 9), None);
    assert_eq!(strip_comments(&chars("a /*/ b */ c")), (chars("a  c"), false));
    assert_eq!(strip_comments(&chars("a /*/ b")), (chars("a "), true));
}
