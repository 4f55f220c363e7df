use glossy_codegen::config::Artifact;
use glossy_codegen::{
    file_id_to_name, Config, FileIds, Included, Language, Optimized, ProcessError, Shader,
    SourceKind,
};

const COMMON: &str = "// A vertex shader with comments of every kind\n\
#version 120\n\
/* block\n   comment */ uniform mat4 mvp; // trailing\n\
#include \"include1.glsl\"\n\
#include <include2.glsl>\n\
/* open\n\
#include \"ignored.glsl\"\n\
*/\n\
void main() {\n    gl_Position = mvp * position();\n}\n\n";

const INCLUDE1: &str = "#version 120\nattribute vec4 pos; /* why */\n";

const INCLUDE2: &str = "#include \"include1.glsl\"\nvec4 position() { return pos; }\n";

fn included(name: &str, content: &str) -> Included {
    Included { name: name.to_string(), content: content.to_string() }
}

fn includes() -> Vec<Included> {
    vec![included("include1.glsl", INCLUDE1), included("include2.glsl", INCLUDE2)]
}

#[test]
fn common() {
    let config = Config::new(Language::OpenGl)
        .vertex(vec!["tests/common.glsl".to_string()])
        .includes(includes());
    assert_eq!(config.sources.len(), 1);
    assert_eq!(config.sources[0].path, "tests/common.glsl");
    assert_eq!(config.sources[0].kind, SourceKind::Vertex);
    let mut ids = FileIds::new();
    let built = config.build_one(&mut ids, "common.glsl", config.sources[0].kind, COMMON);
    let expected = "#version 120\n#line 2 0\n\
// A vertex shader with comments of every kind\n\
\n\
/* block\n   comment */ uniform mat4 mvp; // trailing\n\
#line 2 1\nattribute vec4 pos; /* why */\n#line 6 0\n\
#line 1 2\n#line 2 1\nattribute vec4 pos; /* why */\n#line 2 2\nvec4 position() { return pos; }\n#line 7 0\n\
/* open\n\
#include \"ignored.glsl\"\n\
*/\n\
void main() {\n    gl_Position = mvp * position();\n}";
    assert_eq!(
        built,
        Ok(Artifact {
            name: "common.glsl".to_string(),
            version: "120".to_string(),
            output: Optimized::Unchanged(expected.to_string()),
        })
    );
    assert_eq!(file_id_to_name(&ids, 0), None);
    assert_eq!(file_id_to_name(&ids, 1), Some("include1.glsl".to_string()));
    assert_eq!(file_id_to_name(&ids, 2), Some("include2.glsl".to_string()));
    assert_eq!(file_id_to_name(&ids, 3), None);
}

#[test]
fn optimize() {
    let config = Config::new(Language::OpenGl)
        .vertex(vec!["tests/common.glsl".to_string()])
        .includes(includes())
        .optimize();
    let mut ids = FileIds::new();
    let built = config.build_one(&mut ids, "common.glsl", config.sources[0].kind, COMMON);
    let expected = "#version 120\n#line 2 0\n uniform mat4 mvp; \n\
#line 2 1\nattribute vec4 pos;\n\
#line 1 2\n#line 2 1\nattribute vec4 pos;\nvec4 position() { return pos; }\n\
void main() {\n    gl_Position = mvp * position();\n}";
    assert_eq!(
        built,
        Ok(Artifact {
            name: "common.glsl".to_string(),
            version: "120".to_string(),
            output: Optimized::Native(Shader { kind: SourceKind::Vertex, source: expected.to_string() }),
        })
    );
}

#[test]
#[should_panic(expected = "recursive inclusion of \"badinclude1.glsl\" in shader file \"badinclude2.glsl\"")]
fn recurse() {
    let config = Config::new(Language::OpenGl)
        .source(vec![("tests/recurse.glsl".to_string(), Some("glsl".to_string()))])
        .includes(vec![
            included("badinclude1.glsl", "#include \"badinclude2.glsl\"\n"),
            included("badinclude2.glsl", "#include \"badinclude1.glsl\"\n"),
        ]);
    assert_eq!(config.sources[0].kind, SourceKind::Unknown);
    let mut ids = FileIds::new();
    let built = config.build_one(&mut ids, "recurse.glsl", SourceKind::Unknown, "#include \"badinclude1.glsl\"\n");
    assert_eq!(
        built,
        Err(ProcessError::Cycle {
            target: "badinclude1.glsl".to_string(),
            file: "badinclude2.glsl".to_string(),
        })
    );
    if let Err(failure) = built {
        panic!("{}", failure.message());
    }
}

#[test]
#[should_panic(expected = "included file \"include1.glsl\" specifies version 120, but parent specifies \"110\"")]
fn version() {
    let config = Config::new(Language::OpenGl)
        .source(vec![("tests/version.glsl".to_string(), Some("glsl".to_string()))])
        .includes(includes());
    let mut ids = FileIds::new();
    let built = config.build_one(&mut ids, "version.glsl", SourceKind::Unknown, "#version 110\n#include \"include1.glsl\"\n");
    assert_eq!(
        built,
        Err(ProcessError::VersionMismatch {
            file: "include1.glsl".to_string(),
            found: "120".to_string(),
            expected: "110".to_string(),
        })
    );
    if let Err(failure) = built {
        panic!("{}", failure.message());
    }
}

#[test]
fn source_is_trimmed_before_it_is_expanded() {
    let config = Config::new(Language::OpenGl);
    let mut ids = FileIds::new();
    let built = config.build_one(&mut ids, "a.frag", SourceKind::Fragment, "int a; \n\n \t\n").unwrap();
    assert_eq!(built.output, Optimized::Unchanged("#version 110\n#line 1 0\nint a;".to_string()));
    assert_eq!(built.version, "110");
    assert_eq!(built.name, "a.frag");
}

#[test]
fn optimizer_gets_what_it_is_tested_with() {
    let text = |version: &str| format!("#version {}\n#line 2 0\nint a;", version);
    let source = |version: &str| format!("#version {}\nint a;", version);
    let mut ids = FileIds::new();
    let desktop = Config::new(Language::OpenGl).optimize();
    let built = desktop.build_one(&mut ids, "a.frag", SourceKind::Fragment, &source("120")).unwrap();
    assert_eq!(built.output, Optimized::Native(Shader { kind: SourceKind::Fragment, source: text("120") }));
    let built = desktop.build_one(&mut ids, "a.frag", SourceKind::Fragment, &source("330")).unwrap();
    assert_eq!(built.output, Optimized::Unchanged(text("330")));
    let built = desktop.build_one(&mut ids, "a.glsl", SourceKind::Unknown, &source("120")).unwrap();
    assert_eq!(built.output, Optimized::Unchanged(text("120")));
    let untested = Config::new(Language::OpenGl).optimize().allow_untested_versions();
    let built = untested.build_one(&mut ids, "a.vert", SourceKind::Vertex, &source("330")).unwrap();
    assert_eq!(built.output, Optimized::Native(Shader { kind: SourceKind::Vertex, source: text("330") }));
    let es = Config::new(Language::OpenGlEs30).optimize();
    let built = es.build_one(&mut ids, "a.vert", SourceKind::Vertex, &source("300")).unwrap();
    assert_eq!(built.output, Optimized::Native(Shader { kind: SourceKind::Vertex, source: text("300") }));
    let built = es.build_one(&mut ids, "a.vert", SourceKind::Vertex, &source("310")).unwrap();
    assert_eq!(built.output, Optimized::Unchanged(text("310")));
}

#[test]
fn failures_are_reported_in_words() {
    let cycle = ProcessError::Cycle { target: "a.glsl".to_string(), file: "b.glsl".to_string() };
    assert_eq!(cycle.message(), "recursive inclusion of \"a.glsl\" in shader file \"b.glsl\"");
    let missing = ProcessError::MissingInclude { file: "b.glsl".to_string(), target: "a.glsl".to_string() };
    assert_eq!(missing.message(), "shader file \"b.glsl\" includes non-existent file \"a.glsl\"");
    let version = ProcessError::VersionMismatch {
        file: "a.glsl".to_string(),
        found: "110".to_string(),
        expected: "120".to_string(),
    };
    assert_eq!(version.message(), "included file \"a.glsl\" specifies version 110, but parent specifies \"120\"");
    assert_eq!(ProcessError::Pattern.message(), "the pattern matcher rejects a directive pattern");
}
