use glossy_codegen::{Config, FileIds, Included, Language, ProcessError};

fn table(entries: &[(&str, &str)]) -> Vec<Included> {
    entries
        .iter()
        .map(|(name, content)| Included { name: name.to_string(), content: content.to_string() })
        .collect()
}

fn top(config: &Config, ids: &mut FileIds, source: &str) -> Result<(String, String), ProcessError> {
    config.process(ids, "main.glsl", source, Vec::new(), 0, None)
}

fn markers(text: &str) -> usize {
    text.lines().filter(|line| line.starts_with("#line ")).count()
}

const DIAMOND: &[(&str, &str)] = &[
    ("a.glsl", "#include \"c.glsl\"\nfloat a;"),
    ("b.glsl", "#include <c.glsl>\nfloat b;"),
    ("c.glsl", "float c;"),
];

const DIAMOND_TOP: &str = "#include \"a.glsl\"\n#include \"b.glsl\"\nvoid main() {}";

#[test]
fn version_line_moves_to_the_top() {
    let config = Config::new(Language::OpenGl);
    let mut ids = FileIds::new();
    let (text, version) = top(&config, &mut ids, "#version 120\nvoid main(){ }\n").unwrap();
    assert_eq!(text, "#version 120\n#line 2 0\nvoid main(){ }");
    assert_eq!(version, "120");
    assert_eq!(ids.len(), 0);
}

#[test]
fn quoted_file_is_spliced_and_the_source_resumed() {
    let config = Config::new(Language::OpenGl).includes(table(&[("a.glsl", "float x = 1.0;")]));
    let mut ids = FileIds::new();
    let (text, version) = top(&config, &mut ids, "#include \"a.glsl\"\n").unwrap();
    assert_eq!(text, "#version 110\n#line 1 0\n#line 1 1\nfloat x = 1.0;\n#line 2 0");
    assert_eq!(version, "110");
    assert_eq!(ids.names(), vec!["a.glsl".to_string()]);
}

#[test]
fn file_in_angle_brackets_is_spliced() {
    let config = Config::new(Language::OpenGl).includes(table(&[("lib/a.glsl", "float x;")]));
    let mut ids = FileIds::new();
    let (text, _) = top(&config, &mut ids, "int y;\n  #  include   <lib/a.glsl>  \nint z;").unwrap();
    assert_eq!(text, "#version 110\n#line 1 0\nint y;\n#line 1 1\nfloat x;\n#line 3 0\nint z;");
}

#[test]
fn version_defaults_by_language() {
    let mut ids = FileIds::new();
    let desktop = top(&Config::new(Language::OpenGl), &mut ids, "void main() {}").unwrap();
    assert_eq!(desktop.0, "#version 110\n#line 1 0\nvoid main() {}");
    assert_eq!(desktop.1, "110");
    let es2 = top(&Config::new(Language::OpenGlEs20), &mut ids, "void main() {}").unwrap();
    assert_eq!(es2.0, "#version 100\n#line 1 0\nvoid main() {}");
    assert_eq!(es2.1, "100");
    let es3 = top(&Config::new(Language::OpenGlEs30), &mut ids, "void main() {}").unwrap();
    assert_eq!(es3.1, "100");
}

#[test]
fn source_without_a_line_that_counts_takes_the_default_version() {
    let config = Config::new(Language::OpenGl);
    let mut ids = FileIds::new();
    assert_eq!(top(&config, &mut ids, "").unwrap(), ("#version 110\n#line 1 0\n".to_string(), "110".to_string()));
    let (text, version) = top(&config, &mut ids, "\n// nothing here\n\n").unwrap();
    assert_eq!(text, "#version 110\n#line 1 0\n\n// nothing here");
    assert_eq!(version, "110");
}

#[test]
fn included_version_must_agree() {
    let config = Config::new(Language::OpenGl).includes(table(&[("a.glsl", "#version 110\nfloat x;")]));
    let mut ids = FileIds::new();
    let failed = top(&config, &mut ids, "#version 120\n#include \"a.glsl\"\n");
    assert_eq!(
        failed,
        Err(ProcessError::VersionMismatch {
            file: "a.glsl".to_string(),
            found: "110".to_string(),
            expected: "120".to_string(),
        })
    );
}

#[test]
fn included_version_must_agree_with_the_default() {
    let config = Config::new(Language::OpenGl).includes(table(&[("a.glsl", "\n// first\n#version 120\n")]));
    let mut ids = FileIds::new();
    let failed = top(&config, &mut ids, "#include \"a.glsl\"\n");
    assert_eq!(
        failed,
        Err(ProcessError::VersionMismatch {
            file: "a.glsl".to_string(),
            found: "120".to_string(),
            expected: "110".to_string(),
        })
    );
}

#[test]
fn agreeing_version_of_an_included_file_is_taken_out() {
    let config = Config::new(Language::OpenGl).includes(table(&[("a.glsl", "#version 120\nfloat x;")]));
    let mut ids = FileIds::new();
    let (text, version) = top(&config, &mut ids, "#version 120\n#include \"a.glsl\"\nint y;").unwrap();
    assert_eq!(text, "#version 120\n#line 2 0\n#line 2 1\nfloat x;\n#line 3 0\nint y;");
    assert_eq!(version, "120");
}

#[test]
fn version_below_the_first_line_leaves_an_empty_line() {
    let config = Config::new(Language::OpenGl);
    let mut ids = FileIds::new();
    let (text, version) = top(&config, &mut ids, "\n#version 120\ncode").unwrap();
    assert_eq!(text, "#version 120\n#line 2 0\n\n\ncode");
    assert_eq!(version, "120");
    let (text, _) = top(&config, &mut ids, "// head\n#version 120 /* open\n still */ code").unwrap();
    assert_eq!(text, "#version 120\n#line 2 0\n// head\n/*\n still */ code");
}

#[test]
fn only_the_first_line_that_counts_sets_the_version() {
    let config = Config::new(Language::OpenGl);
    let mut ids = FileIds::new();
    let (text, version) = top(&config, &mut ids, "int a;\n#version 120").unwrap();
    assert_eq!(text, "#version 110\n#line 1 0\nint a;\n#version 120");
    assert_eq!(version, "110");
}

#[test]
fn file_that_includes_itself_is_a_cycle() {
    let config = Config::new(Language::OpenGl).includes(table(&[("a.glsl", "#include \"a.glsl\"")]));
    let mut ids = FileIds::new();
    assert_eq!(
        top(&config, &mut ids, "#include \"a.glsl\""),
        Err(ProcessError::Cycle { target: "a.glsl".to_string(), file: "a.glsl".to_string() })
    );
}

#[test]
fn cycle_over_two_files_names_the_file_that_closes_it() {
    let config = Config::new(Language::OpenGl).includes(table(&[
        ("a.glsl", "float a;\n#include \"b.glsl\""),
        ("b.glsl", "float b;\n#include <a.glsl>"),
    ]));
    let mut ids = FileIds::new();
    assert_eq!(
        top(&config, &mut ids, "#include \"a.glsl\""),
        Err(ProcessError::Cycle { target: "a.glsl".to_string(), file: "b.glsl".to_string() })
    );
    assert_eq!(ids.names(), vec!["a.glsl".to_string(), "b.glsl".to_string()]);
}

#[test]
fn file_missing_from_the_table_is_reported() {
    let config = Config::new(Language::OpenGl).includes(table(&[("a.glsl", "#include \"nope.glsl\"")]));
    let mut ids = FileIds::new();
    assert_eq!(
        top(&config, &mut ids, "#include \"nope.glsl\""),
        Err(ProcessError::MissingInclude { file: "main.glsl".to_string(), target: "nope.glsl".to_string() })
    );
    assert_eq!(
        top(&config, &mut ids, "#include \"a.glsl\""),
        Err(ProcessError::MissingInclude { file: "a.glsl".to_string(), target: "nope.glsl".to_string() })
    );
}

#[test]
fn missing_file_is_reported_before_a_cycle() {
    let config = Config::new(Language::OpenGl);
    let mut ids = FileIds::new();
    let failed = config.process(&mut ids, "x.glsl", "#include \"x.glsl\"", vec!["x.glsl".to_string()], 1, None);
    assert_eq!(
        failed,
        Err(ProcessError::MissingInclude { file: "x.glsl".to_string(), target: "x.glsl".to_string() })
    );
}

#[test]
fn file_included_on_two_paths_has_one_id() {
    let config = Config::new(Language::OpenGl).includes(table(DIAMOND));
    let mut ids = FileIds::new();
    let (text, _) = top(&config, &mut ids, DIAMOND_TOP).unwrap();
    assert_eq!(
        text,
        "#version 110\n#line 1 0\n\
         #line 1 1\n#line 1 2\nfloat c;\n#line 2 1\nfloat a;\n#line 2 0\n\
         #line 1 3\n#line 1 2\nfloat c;\n#line 2 3\nfloat b;\n#line 3 0\n\
         void main() {}"
    );
    assert_eq!(ids.names(), vec!["a.glsl".to_string(), "c.glsl".to_string(), "b.glsl".to_string()]);
}

#[test]
fn markers_are_counted_by_spliced_files() {
    let mut ids = FileIds::new();
    let preserving = Config::new(Language::OpenGl).includes(table(DIAMOND));
    let (text, _) = top(&preserving, &mut ids, DIAMOND_TOP).unwrap();
    assert_eq!(markers(&text), 2 * 4 + 1);
    let discarding = Config::new(Language::OpenGl).includes(table(DIAMOND)).discard_line_info();
    let (text, _) = top(&discarding, &mut ids, DIAMOND_TOP).unwrap();
    assert_eq!(markers(&text), 4 + 1);
    let (text, _) = top(&preserving, &mut ids, "void main() {}").unwrap();
    assert_eq!(markers(&text), 1);
}

#[test]
fn ids_last_over_the_sources_of_a_session() {
    let config = Config::new(Language::OpenGl).includes(table(DIAMOND));
    let mut ids = FileIds::new();
    let (first, _) = top(&config, &mut ids, "#include \"c.glsl\"").unwrap();
    assert_eq!(first, "#version 110\n#line 1 0\n#line 1 1\nfloat c;\n#line 2 0");
    let (second, _) = top(&config, &mut ids, "#include \"b.glsl\"").unwrap();
    assert_eq!(second, "#version 110\n#line 1 0\n#line 1 2\n#line 1 1\nfloat c;\n#line 2 2\nfloat b;\n#line 2 0");
    assert_eq!(ids.names(), vec!["c.glsl".to_string(), "b.glsl".to_string()]);
}

#[test]
fn comments_stay_where_lines_are_preserved() {
    let config = Config::new(Language::OpenGl);
    let mut ids = FileIds::new();
    let source = "// head\nint a; // tail\n/* one\n   two */ int b; /* three */\n\n/* four\n#include \"ghost.glsl\"\n*/\nint c;";
    let (text, _) = top(&config, &mut ids, source).unwrap();
    assert_eq!(text, format!("#version 110\n#line 1 0\n{}", source));
}

#[test]
fn comments_and_blank_lines_go_where_lines_are_discarded() {
    let config = Config::new(Language::OpenGl)
        .includes(table(&[("a.glsl", "// a\n\n#version 120\nfloat x; // x\n#version 120\n/* gone */")]))
        .discard_line_info();
    let mut ids = FileIds::new();
    let source = "// head\n#version 120 // v\nint a; // tail\n/* one\n   two */ int b; /* three */\n\n   \t\n#include \"a.glsl\" // it\n/* four\n#include \"ghost.glsl\"\n*/\nint c;\n#version 120";
    let (text, version) = top(&config, &mut ids, source).unwrap();
    assert_eq!(
        text,
        "#version 120\n#line 2 0\nint a; \n int b; \n#line 2 1\nfloat x;\nint c;\n#version 120"
    );
    assert_eq!(version, "120");
    for line in text.lines() {
        assert!(!line.trim().is_empty());
        assert!(!line.contains("//") && !line.contains("/*"));
    }
}

#[test]
fn file_without_code_leaves_its_marker_and_no_empty_line() {
    for content in ["", "// nothing\n", "/* nothing\n at all */\n\n", "#version 110", "\n#version 110\n \t\n"] {
        let config = Config::new(Language::OpenGl).includes(table(&[("e.glsl", content)])).discard_line_info();
        let mut ids = FileIds::new();
        let (text, _) = top(&config, &mut ids, "#include \"e.glsl\"\nint a;").unwrap();
        let marker = if content.contains("#version") { "#line 2 1" } else { "#line 1 1" };
        assert_eq!(text, format!("#version 110\n#line 1 0\n{}\nint a;", marker), "{:?}", content);
    }
}

#[test]
fn files_without_code_inside_each_other_leave_no_empty_line() {
    let config = Config::new(Language::OpenGl)
        .includes(table(&[
            ("outer.glsl", "// outer\n#include <inner.glsl>\n"),
            ("inner.glsl", "/* inner */"),
        ]))
        .discard_line_info();
    let mut ids = FileIds::new();
    let (text, _) = top(&config, &mut ids, "#include <outer.glsl>\n#include <inner.glsl>\nint a; \n#include <outer.glsl>\n").unwrap();
    assert_eq!(
        text,
        "#version 110\n#line 1 0\n#line 1 1\n#line 1 2\n#line 1 2\nint a; \n#line 1 1\n#line 1 2"
    );
}

#[test]
fn text_without_line_information_holds_no_blank_line() {
    let config = Config::new(Language::OpenGl)
        .includes(table(&[
            ("empty.glsl", ""),
            ("blank.glsl", " \n\t\n\r\n"),
            ("tail.glsl", "float t;  \n\n"),
            ("deep.glsl", "#include <empty.glsl>\n#include <tail.glsl>\n#include <blank.glsl>\n"),
        ]))
        .discard_line_info();
    let sources = [
        "",
        "\n\n",
        "#include <empty.glsl>",
        "#include <blank.glsl>\n#include <empty.glsl>\n",
        "#version 120 \n\n#include <deep.glsl>\n\nint a;\n\n#include <deep.glsl>\n \n",
        "int a;\r\n\r\n#include <tail.glsl>\r\n/* c */\r\nint b; // d\r\n",
    ];
    for source in sources {
        let mut ids = FileIds::new();
        let (text, _) = top(&config, &mut ids, source).unwrap();
        for line in text.lines() {
            assert!(!line.trim().is_empty(), "{:?} gives {:?}", source, text);
        }
    }
}

#[test]
fn file_without_code_keeps_its_line_feed_where_lines_are_preserved() {
    let config = Config::new(Language::OpenGl).includes(table(&[("e.glsl", "")]));
    let mut ids = FileIds::new();
    let (text, _) = top(&config, &mut ids, "#include \"e.glsl\"\nint a;").unwrap();
    assert_eq!(text, "#version 110\n#line 1 0\n#line 1 1\n\n#line 2 0\nint a;");
}

#[test]
fn comment_that_is_open_at_a_splice_is_opened_again() {
    let config = Config::new(Language::OpenGl).includes(table(&[("a.glsl", "float x;")]));
    let mut ids = FileIds::new();
    let source = "/* c\n*/ #include \"a.glsl\" /* d\ne */\nint y;";
    let (text, _) = top(&config, &mut ids, source).unwrap();
    assert_eq!(text, "#version 110\n#line 1 0\n/* c\n#line 1 1\nfloat x;\n#line 3 0\n/*\ne */\nint y;");
}

#[test]
fn directive_inside_a_comment_is_no_directive() {
    let config = Config::new(Language::OpenGl);
    let mut ids = FileIds::new();
    let (text, _) = top(&config, &mut ids, "// #include \"a.glsl\"\n/* #include <b.glsl> */\nint a;").unwrap();
    assert_eq!(text, "#version 110\n#line 1 0\n// #include \"a.glsl\"\n/* #include <b.glsl> */\nint a;");
    assert_eq!(ids.len(), 0);
}

#[test]
fn included_file_has_no_version_line_of_its_own() {
    let config = Config::new(Language::OpenGl);
    let mut ids = FileIds::new();
    let done = config.process(&mut ids, "a.glsl", "#version 120\nfloat x;", vec!["a.glsl".to_string()], 7, Some("120"));
    assert_eq!(done, Ok(("#line 2 7\nfloat x;".to_string(), "120".to_string())));
    let done = config.process(&mut ids, "a.glsl", "float x;", vec!["a.glsl".to_string()], 7, Some("330"));
    assert_eq!(done, Ok(("#line 1 7\nfloat x;".to_string(), "330".to_string())));
}

#[test]
fn lines_end_at_line_feeds_with_or_without_carriage_returns() {
    let config = Config::new(Language::OpenGl);
    let mut ids = FileIds::new();
    let (text, _) = top(&config, &mut ids, "int a;\r\nint b;\n\r\nint c;  \t\r\n\r\n").unwrap();
    assert_eq!(text, "#version 110\n#line 1 0\nint a;\nint b;\n\nint c;");
}

#[test]
fn line_numbers_are_written_in_decimal() {
    let mut source = String::new();
    for _ in 0..1234 {
        source.push_str("int a;\n");
    }
    source.push_str("#include \"a.glsl\"");
    let config = Config::new(Language::OpenGl).includes(table(&[("a.glsl", "float x;")]));
    let mut ids = FileIds::new();
    let (text, _) = top(&config, &mut ids, &source).unwrap();
    assert!(text.ends_with("int a;\n#line 1 1\nfloat x;\n#line 1236 0"));
}

#[test]
fn files_that_the_source_does_not_reach_do_not_matter() {
    let config = Config::new(Language::OpenGl).includes(table(&[
        ("good.glsl", "#include <leaf.glsl>\nfloat g;"),
        ("leaf.glsl", "#version 110\nfloat l;"),
        ("loop.glsl", "#include \"loop.glsl\""),
        ("gap.glsl", "#include \"nowhere.glsl\""),
        ("other.glsl", "#version 450\nfloat o;"),
    ]));
    let mut ids = FileIds::new();
    let (text, version) = top(&config, &mut ids, "#include \"good.glsl\"\nvoid main() {}").unwrap();
    assert_eq!(
        text,
        "#version 110\n#line 1 0\n#line 1 1\n#line 2 2\nfloat l;\n#line 2 1\nfloat g;\n#line 2 0\nvoid main() {}"
    );
    assert_eq!(version, "110");
    assert_eq!(ids.names(), vec!["good.glsl".to_string(), "leaf.glsl".to_string()]);
}

#[test]
fn inclusions_go_as_deep_as_the_table_has_files() {
    let config = Config::new(Language::OpenGl).includes(table(&[
        ("a", "#include <b>"),
        ("b", "#include <c>"),
        ("c", "#include <d>"),
        ("d", "float d;"),
    ]));
    let mut ids = FileIds::new();
    let (text, _) = top(&config, &mut ids, "#include <a>").unwrap();
    assert_eq!(
        text,
        "#version 110\n#line 1 0\n#line 1 1\n#line 1 2\n#line 1 3\n#line 1 4\nfloat d;\n#line 2 3\n#line 2 2\n#line 2 1\n#line 2 0"
    );
    assert_eq!(ids.len(), 4);
}

#[test]
fn first_problem_in_reading_order_is_reported() {
    let config = Config::new(Language::OpenGl).includes(table(&[
        ("loop.glsl", "float l;\n#include <loop.glsl>"),
        ("gap.glsl", "float g;\n#include <nowhere.glsl>"),
        ("other.glsl", "#version 450\nfloat o;"),
        ("gap_then_loop.glsl", "#include <gap.glsl>\n#include <loop.glsl>"),
    ]));
    let cycle = Err(ProcessError::Cycle { target: "loop.glsl".to_string(), file: "loop.glsl".to_string() });
    let missing = Err(ProcessError::MissingInclude { file: "gap.glsl".to_string(), target: "nowhere.glsl".to_string() });
    let conflict = Err(ProcessError::VersionMismatch {
        file: "other.glsl".to_string(),
        found: "450".to_string(),
        expected: "110".to_string(),
    });
    let mut ids = FileIds::new();
    assert_eq!(top(&config, &mut ids, "#include <loop.glsl>\n#include <gap.glsl>\n#include <other.glsl>"), cycle);
    assert_eq!(top(&config, &mut ids, "#include <gap.glsl>\n#include <other.glsl>\n#include <loop.glsl>"), missing);
    assert_eq!(top(&config, &mut ids, "int a;\n#include <other.glsl>\n#include <loop.glsl>\n#include <gap.glsl>"), conflict);
    assert_eq!(top(&config, &mut ids, "#include <gap_then_loop.glsl>\n#include <other.glsl>"), missing);
}
