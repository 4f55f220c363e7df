use glossy_codegen::config::source_kind;
use glossy_codegen::{
    file_id_to_name, Config, FileIds, Included, Language, Optimized, Optimizer, Shader, Source,
    SourceKind,
};

fn included(name: &str, content: &str) -> Included {
    Included { name: name.to_string(), content: content.to_string() }
}

#[test]
fn new_configuration_preserves_lines_and_does_not_optimize() {
    let config = Config::new(Language::OpenGlEs20);
    assert_eq!(config.lang, Language::OpenGlEs20);
    assert!(config.sources.is_empty());
    assert!(config.includes.is_empty());
    assert_eq!(config.optimizer, None);
    assert!(config.preserve_line_info);
    assert!(!config.allow_untested);
}

#[test]
fn switches_are_set_one_by_one() {
    let config = Config::new(Language::OpenGl).discard_line_info();
    assert!(!config.preserve_line_info);
    assert_eq!(config.optimizer, None);
    let config = Config::new(Language::OpenGlEs30).optimize();
    assert!(!config.preserve_line_info);
    assert_eq!(config.optimizer, Some(Optimizer { lang: Language::OpenGlEs30 }));
    assert!(!config.allow_untested);
    let config = Config::new(Language::OpenGl).allow_untested_versions();
    assert!(config.allow_untested);
    assert!(config.preserve_line_info);
}

#[test]
fn sources_are_added_in_order() {
    let config = Config::new(Language::OpenGl)
        .vertex(vec!["a.vert".to_string(), "b.glsl".to_string()])
        .fragment(vec!["c.frag".to_string()])
        .source(vec![
            ("d.vert".to_string(), Some("vert".to_string())),
            ("e.frag".to_string(), Some("frag".to_string())),
            ("f.glsl".to_string(), Some("glsl".to_string())),
            ("g".to_string(), None),
        ])
        .vertex(Vec::new());
    assert_eq!(
        config.sources,
        vec![
            Source::new("a.vert".to_string(), SourceKind::Vertex),
            Source::new("b.glsl".to_string(), SourceKind::Vertex),
            Source::new("c.frag".to_string(), SourceKind::Fragment),
            Source::new("d.vert".to_string(), SourceKind::Vertex),
            Source::new("e.frag".to_string(), SourceKind::Fragment),
            Source::new("f.glsl".to_string(), SourceKind::Unknown),
            Source::new("g".to_string(), SourceKind::Unknown),
        ]
    );
}

#[test]
fn kind_goes_by_the_extension() {
    assert_eq!(source_kind(Some("vert")), SourceKind::Vertex);
    assert_eq!(source_kind(Some("frag")), SourceKind::Fragment);
    assert_eq!(source_kind(Some("glsl")), SourceKind::Unknown);
    assert_eq!(source_kind(Some("VERT")), SourceKind::Unknown);
    assert_eq!(source_kind(Some("vertex")), SourceKind::Unknown);
    assert_eq!(source_kind(Some("")), SourceKind::Unknown);
    assert_eq!(source_kind(None), SourceKind::Unknown);
}

#[test]
fn later_text_takes_the_place_of_an_earlier_one_of_the_same_name() {
    let config = Config::new(Language::OpenGl)
        .includes(vec![included("a", "1"), included("b", "2"), included("a", "3")])
        .includes(vec![included("c", "4"), included("b", "5")]);
    assert_eq!(config.includes, vec![included("a", "3"), included("b", "5"), included("c", "4")]);
    let mut ids = FileIds::new();
    let (text, _) = config.process(&mut ids, "top", "#include <a>\n#include <b>", Vec::new(), 0, None).unwrap();
    assert_eq!(text, "#version 110\n#line 1 0\n#line 1 1\n3\n#line 2 0\n#line 1 2\n5\n#line 3 0");
}

#[test]
fn optimizer_is_tested_with_few_versions() {
    let desktop = Config::new(Language::OpenGl);
    assert!(desktop.version_supported("110".to_string()));
    assert!(desktop.version_supported("120".to_string()));
    assert!(!desktop.version_supported("130".to_string()));
    assert!(!desktop.version_supported("100".to_string()));
    assert!(!desktop.version_supported("".to_string()));
    assert!(!desktop.version_supported("1100".to_string()));
    let desktop = desktop.allow_untested_versions();
    assert!(desktop.version_supported("450".to_string()));
    assert!(desktop.version_supported("".to_string()));
    for lang in [Language::OpenGlEs20, Language::OpenGlEs30] {
        let es = Config::new(lang);
        assert!(es.version_supported("100".to_string()));
        assert!(es.version_supported("300".to_string()));
        assert!(!es.version_supported("110".to_string()));
        assert!(!es.version_supported("310".to_string()));
        assert!(es.allow_untested_versions().version_supported("310".to_string()));
    }
}

#[test]
fn only_shaders_of_a_known_kind_are_optimized() {
    let optimizer = Optimizer::new(Language::OpenGl);
    assert_eq!(optimizer.lang, Language::OpenGl);
    assert_eq!(optimizer.optimize("x".to_string(), SourceKind::Unknown), Optimized::Unchanged("x".to_string()));
    assert_eq!(
        optimizer.optimize("x".to_string(), SourceKind::Vertex),
        Optimized::Native(Shader { kind: SourceKind::Vertex, source: "x".to_string() })
    );
    assert_eq!(
        optimizer.optimize("x".to_string(), SourceKind::Fragment),
        Optimized::Native(Shader::new(&optimizer, "x".to_string(), SourceKind::Fragment))
    );
    let plain = Config::new(Language::OpenGl);
    assert_eq!(plain.do_optimize("x".to_string(), SourceKind::Vertex), Optimized::Unchanged("x".to_string()));
    let optimizing = plain.optimize();
    assert_eq!(
        optimizing.do_optimize("x".to_string(), SourceKind::Vertex),
        Optimized::Native(Shader { kind: SourceKind::Vertex, source: "x".to_string() })
    );
    assert_eq!(optimizing.do_optimize("x".to_string(), SourceKind::Unknown), Optimized::Unchanged("x".to_string()));
}

#[test]
fn answer_of_the_optimizer_is_its_output_or_its_log() {
    let shader = Shader { kind: SourceKind::Vertex, source: "in".to_string() };
    assert_eq!(shader.source(true, "out".to_string(), "log".to_string()), Ok("out".to_string()));
    assert_eq!(shader.source(false, "out".to_string(), "log".to_string()), Err("log".to_string()));
}

#[test]
fn ids_are_given_in_the_order_of_first_encounter() {
    let name = |s: &str| s.chars().collect::<Vec<char>>();
    let mut ids = FileIds::new();
    assert_eq!(ids.len(), 0);
    assert_eq!(file_id_to_name(&ids, 1), None);
    assert_eq!(ids.resolve(&name("a")), 1);
    assert_eq!(ids.resolve(&name("b")), 2);
    assert_eq!(ids.resolve(&name("a")), 1);
    assert_eq!(ids.resolve(&name("c")), 3);
    assert_eq!(ids.resolve(&name("b")), 2);
    assert_eq!(ids.len(), 3);
    assert_eq!(ids.names(), vec!["a".to_string(), "b".to_string(), "c".to_string()]);
    assert_eq!(file_id_to_name(&ids, 0), None);
    assert_eq!(file_id_to_name(&ids, 1), Some("a".to_string()));
    assert_eq!(file_id_to_name(&ids, 3), Some("c".to_string()));
    assert_eq!(file_id_to_name(&ids, 4), None);
    assert_eq!(file_id_to_name(&ids, u32::MAX), None);
}

#[test]
fn lookup_has_an_arm_for_every_id() {
    let name = |s: &str| s.chars().collect::<Vec<char>>();
    let mut ids = FileIds::new();
    assert_eq!(ids.lookup_source(), "pub fn id_to_file_name(id: u32) -> Option<&'static str> { match id {\n_ => None } }");
    for i in 0..12 {
        ids.resolve(&name(&format!("dir/in \"{}\".glsl", i)));
    }
    ids.resolve(&name("tab\there\\"));
    let source = ids.lookup_source();
    let mut expected = String::from("pub fn id_to_file_name(id: u32) -> Option<&'static str> { match id {\n");
    for i in 0..12 {
        expected.push_str(&format!("{} => Some(\"dir/in \\\"{}\\\".glsl\"),\n", i + 1, i));
    }
    expected.push_str("13 => Some(\"tab\\there\\\\\"),\n_ => None } }");
    assert_eq!(source, expected);
}
