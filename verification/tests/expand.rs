use glossy_codegen::expand::{expand, find_file, Expanded};
use glossy_codegen::scanned::{ProcessError, ScannedFile, ScannedLine};
use glossy_codegen::FileIds;

fn chars(s: &str) -> Vec<char> {
    s.chars().collect()
}

fn plain(raw: &str, code: &str) -> ScannedLine {
    ScannedLine {
        raw: chars(raw),
        code: chars(code),
        swallowed: false,
        open_after: false,
        version: None,
        target: None,
    }
}

fn asks(raw: &str, target: &str) -> ScannedLine {
    ScannedLine { target: Some(chars(target)), ..plain(raw, raw) }
}

fn declares(raw: &str, version: &str) -> ScannedLine {
    ScannedLine { version: Some(chars(version)), ..plain(raw, raw) }
}

fn comment(raw: &str) -> ScannedLine {
    ScannedLine { swallowed: true, open_after: true, ..plain(raw, "") }
}

fn file(name: &str, lines: Vec<ScannedLine>) -> ScannedFile {
    ScannedFile { name: chars(name), lines }
}

fn run_top(
    preserve: bool,
    table: &Vec<ScannedFile>,
    ids: &mut FileIds,
    lines: Vec<ScannedLine>,
) -> Result<(String, String), ProcessError> {
    expand(preserve, &chars("110"), table, ids, &chars("top"), &lines, &Vec::new(), 0, None)
        .map(|Expanded { text, version }| (text.into_iter().collect(), version.into_iter().collect()))
}

fn done(text: &str, version: &str) -> Result<(String, String), ProcessError> {
    Ok((text.to_string(), version.to_string()))
}

#[test]
fn lines_are_copied_as_written_or_without_comments() {
    let lines = || vec![plain("int a; // a", "int a; "), comment("in a comment"), plain("  ", "  "), plain("int b;", "int b;")];
    let mut ids = FileIds::new();
    assert_eq!(
        run_top(true, &Vec::new(), &mut ids, lines()),
        done("#version 110\n#line 1 0\nint a; // a\nin a comment\n  \nint b;", "110")
    );
    assert_eq!(
        run_top(false, &Vec::new(), &mut ids, lines()),
        done("#version 110\n#line 1 0\nint a; \nint b;", "110")
    );
}

#[test]
fn first_line_that_counts_may_declare_the_version() {
    let mut ids = FileIds::new();
    let lines = vec![comment("/* head"), declares("#version 450", "450"), plain("int a;", "int a;"), declares("#version 460", "460")];
    assert_eq!(
        run_top(true, &Vec::new(), &mut ids, lines),
        done("#version 450\n#line 2 0\n/* head\n\nint a;\n#version 460", "450")
    );
    let opened = ScannedLine { open_after: true, ..declares("#version 450 /* x", "450") };
    assert_eq!(
        run_top(true, &Vec::new(), &mut ids, vec![plain("", ""), opened]),
        done("#version 450\n#line 2 0\n\n/*", "450")
    );
    let lines = vec![declares("#version 450", "450")];
    assert_eq!(run_top(false, &Vec::new(), &mut ids, lines), done("#version 450\n#line 2 0\n", "450"));
}

#[test]
fn spliced_file_gets_the_next_id_and_the_version() {
    let table = vec![
        file("a", vec![declares("#version 450", "450"), asks("#include <b>", "b"), plain("a;", "a;")]),
        file("b", vec![plain("b;", "b;"), declares("#version 1", "1")]),
    ];
    let top = || vec![declares("#version 450", "450"), asks("#include <b>", "b"), asks("#include <a>", "a"), plain("t;", "t;")];
    let mut ids = FileIds::new();
    assert_eq!(
        run_top(true, &table, &mut ids, top()),
        done(
            "#version 450\n#line 2 0\n#line 1 1\nb;\n#version 1\n#line 3 0\n#line 2 2\n#line 1 1\nb;\n#version 1\n#line 3 2\na;\n#line 4 0\nt;",
            "450"
        )
    );
    assert_eq!(ids.names(), vec!["b".to_string(), "a".to_string()]);
    assert_eq!(
        run_top(false, &table, &mut ids, top()),
        done("#version 450\n#line 2 0\n#line 1 1\nb;\n#line 2 2\n#line 1 1\nb;\na;\nt;", "450")
    );
    assert_eq!(ids.len(), 2);
}

#[test]
fn failures_name_the_files() {
    let table = vec![
        file("a", vec![asks("#include <b>", "b")]),
        file("b", vec![asks("#include <a>", "a")]),
        file("c", vec![asks("#include <d>", "d")]),
        file("v", vec![plain("", ""), declares("#version 2", "2")]),
    ];
    let mut ids = FileIds::new();
    assert_eq!(
        run_top(true, &table, &mut ids, vec![asks("#include <a>", "a")]),
        Err(ProcessError::Cycle { target: "a".to_string(), file: "b".to_string() })
    );
    assert_eq!(
        run_top(true, &table, &mut ids, vec![plain("x", "x"), asks("#include <c>", "c")]),
        Err(ProcessError::MissingInclude { file: "c".to_string(), target: "d".to_string() })
    );
    assert_eq!(
        run_top(true, &table, &mut ids, vec![asks("#include <v>", "v")]),
        Err(ProcessError::VersionMismatch { file: "v".to_string(), found: "2".to_string(), expected: "110".to_string() })
    );
    assert_eq!(ids.names(), vec!["a".to_string(), "b".to_string(), "c".to_string(), "v".to_string()]);
}

#[test]
fn first_file_of_a_name_is_found() {
    let table = vec![file("a", vec![plain("1", "1")]), file("b", Vec::new()), file("a", vec![plain("2", "2")])];
    assert_eq!(find_file(&table, &chars("a")), 0);
    assert_eq!(find_file(&table, &chars("b")), 1);
    assert_eq!(find_file(&table, &chars("c")), 3);
    let mut ids = FileIds::new();
    assert_eq!(
        run_top(false, &table, &mut ids, vec![asks("#include <a>", "a")]),
        done("#version 110\n#line 1 0\n#line 1 1\n1", "110")
    );
}
