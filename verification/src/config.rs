//! The configuration of a build, and the processing of its sources.

use crate::expand::{expand, run, start, Frame, Outcome, Rules};
use crate::optimize::{Language, Optimized, Optimizer, SourceKind};
use crate::registry::FileIds;
use crate::scan::{
    clean, lemma_scan_is_clean, patterns_accepted, patterns_compile, scan, scan_source,
};
use crate::scanned::{file_views, File, ProcessError, ScannedFile};
use crate::text::{chars_of, string_of, texts, trim_end, trim_text_end};
use vstd::prelude::*;

verus! {

/// A top-level source: where it was found, and what it is compiled as.
#[derive(Debug, PartialEq, Eq)]
pub struct Source {
    pub path: String,
    pub kind: SourceKind,
}

impl Source {
    /// A source at that path, of that kind.
    pub fn new(path: String, kind: SourceKind) -> (r: Source)
        ensures
            r.path == path,
            r.kind == kind,
    {
        Source { path, kind }
    }
}

/// A text that sources can include, under the name by which they ask for it.
#[derive(Debug, PartialEq, Eq)]
pub struct Included {
    pub name: String,
    pub content: String,
}

/// The configuration of the preprocessor.
pub struct Config {
    pub lang: Language,
    pub sources: Vec<Source>,
    pub includes: Vec<Included>,
    pub optimizer: Option<Optimizer>,
    pub preserve_line_info: bool,
    pub allow_untested: bool,
}

/// The version of a source that declares none: `110` for OpenGL, `100` for
/// the two OpenGL ES languages.
pub open spec fn default_version(lang: Language) -> Seq<char> {
    match lang {
        Language::OpenGl => seq!['1', '1', '0'],
        Language::OpenGlEs20 | Language::OpenGlEs30 => seq!['1', '0', '0'],
    }
}

/// The versions that the optimizer is tested with: `110` and `120` for
/// OpenGL, `100` and `300` for the two OpenGL ES languages.
pub open spec fn tested(lang: Language, version: Seq<char>) -> bool {
    match lang {
        Language::OpenGl => version == seq!['1', '1', '0'] || version == seq!['1', '2', '0'],
        Language::OpenGlEs20 | Language::OpenGlEs30 => version == seq!['1', '0', '0'] || version
            == seq!['3', '0', '0'],
    }
}

/// Whether the optimizer is to be tried on a source of that version: on
/// the versions that it is tested with, and on any version once untested
/// ones are allowed.
pub open spec fn supported(lang: Language, allow_untested: bool, version: Seq<char>) -> bool {
    allow_untested || tested(lang, version)
}

/// The kind of a source with that file extension: `vert` is a vertex
/// shader, `frag` a fragment shader.
pub open spec fn kind_of_extension(extension: Option<Seq<char>>) -> SourceKind {
    if extension == Some(seq!['v', 'e', 'r', 't']) {
        SourceKind::Vertex
    } else if extension == Some(seq!['f', 'r', 'a', 'g']) {
        SourceKind::Fragment
    } else {
        SourceKind::Unknown
    }
}

/// The table of includes as a scan sees it.
pub open spec fn table_of(includes: Seq<Included>) -> Seq<File> {
    includes.map_values(|e: Included| File { name: e.name@, lines: scan(e.content@) })
}

/// The table after a text was added under a name: a new name goes to the
/// end, a known one gets the new text.
pub open spec fn with_included(table: Seq<Included>, entry: Included) -> Seq<Included> {
    let at = crate::registry::position(included_names(table), entry.name@);
    if at < table.len() {
        table.update(at, entry)
    } else {
        table.push(entry)
    }
}

/// The names in a table of includes.
pub open spec fn included_names(table: Seq<Included>) -> Seq<Seq<char>> {
    table.map_values(|e: Included| e.name@)
}

/// Adding a text does to the names of a table what meeting a name does to
/// a list of names: a new name goes to the end, a known one changes nothing.
pub proof fn lemma_with_included(table: Seq<Included>, entry: Included)
    ensures
        included_names(with_included(table, entry)) == crate::registry::with_name(
            included_names(table),
            entry.name@,
        ),
{
    let names = included_names(table);
    crate::registry::lemma_position_from(names, entry.name@, 0);
    let at = crate::registry::position(names, entry.name@);
    if at < table.len() {
        assert(included_names(table.update(at, entry)) =~= names);
    } else {
        assert(included_names(table.push(entry)) =~= names.push(entry.name@));
    }
}

/// The table after the first `n` of some texts were added in turn.
pub open spec fn with_all_included(table: Seq<Included>, files: Seq<Included>, n: nat) -> Seq<
    Included,
>
    decreases n,
{
    if n == 0 || n > files.len() {
        table
    } else {
        with_included(with_all_included(table, files, (n - 1) as nat), files[n - 1])
    }
}

/// A source of the given kind for each path.
pub open spec fn sources_of(paths: Seq<String>, kind: SourceKind) -> Seq<Source> {
    paths.map_values(|path: String| Source { path, kind })
}

/// The characters of a string that may be absent.
pub open spec fn optional_string(text: Option<String>) -> Option<Seq<char>> {
    match text {
        Some(t) => Some(t@),
        None => None,
    }
}

/// A source for each path, of the kind that its extension stands for.
pub open spec fn sources_by_extension(files: Seq<(String, Option<String>)>) -> Seq<Source> {
    files.map_values(
        |f: (String, Option<String>)|
            Source { path: f.0, kind: kind_of_extension(optional_string(f.1)) },
    )
}

/// The names on a stack.
pub open spec fn names_of(stack: Seq<String>) -> Seq<Seq<char>> {
    stack.map_values(|s: String| s@)
}

/// The characters of a text that may be absent.
pub open spec fn optional_text(text: Option<&str>) -> Option<Seq<char>> {
    match text {
        Some(t) => Some(t@),
        None => None,
    }
}

/// A result says what an outcome says: the text is the document laid out,
/// the version is the document's, the error is the failure.
pub open spec fn tells(r: Result<(String, String), ProcessError>, out: Outcome) -> bool {
    match out.result {
        Ok(document) => r is Ok && r->Ok_0.0@ == crate::document::render(document) && r->Ok_0.1@
            == document.version,
        Err(failure) => r is Err && r->Err_0@ == failure,
    }
}

/// The place of the first entry with that name, or the table's length.
fn find_included(table: &Vec<Included>, name: &String) -> (at: usize)
    ensures
        at as int == crate::registry::position(included_names(table@), name@),
{
    let ghost names = included_names(table@);
    let mut i: usize = 0;
    while i < table.len()
        invariant
            i <= table.len(),
            names == included_names(table@),
            names.len() == table.len(),
            crate::registry::position(names, name@) == crate::registry::position_from(
                names,
                name@,
                i as int,
            ),
        decreases table.len() - i,
    {
        assert(names[i as int] == table@[i as int].name@);
        if table[i].name == *name {
            return i;
        }
        i += 1;
    }
    i
}

fn text3(a: char, b: char, c: char) -> (r: Vec<char>)
    ensures
        r@ == seq![a, b, c],
{
    let mut r: Vec<char> = Vec::new();
    r.push(a);
    r.push(b);
    r.push(c);
    assert(r@ == seq![a, b, c]);
    r
}

fn is_text3(s: &Vec<char>, a: char, b: char, c: char) -> (r: bool)
    ensures
        r == (s@ == seq![a, b, c]),
{
    if s.len() == 3 && s[0] == a && s[1] == b && s[2] == c {
        assert(s@ =~= seq![a, b, c]);
        true
    } else {
        assert(seq![a, b, c][0] == a && seq![a, b, c][1] == b && seq![a, b, c][2] == c);
        false
    }
}

fn is_text4(s: &Vec<char>, a: char, b: char, c: char, d: char) -> (r: bool)
    ensures
        r == (s@ == seq![a, b, c, d]),
{
    if s.len() == 4 && s[0] == a && s[1] == b && s[2] == c && s[3] == d {
        assert(s@ =~= seq![a, b, c, d]);
        true
    } else {
        assert(seq![a, b, c, d][0] == a && seq![a, b, c, d][1] == b && seq![a, b, c, d][2] == c
            && seq![a, b, c, d][3] == d);
        false
    }
}

/// The kind that a file extension stands for.
pub fn source_kind(extension: Option<&str>) -> (kind: SourceKind)
    ensures
        kind == kind_of_extension(optional_text(extension)),
{
    match extension {
        None => SourceKind::Unknown,
        Some(ext) => {
            let chars = chars_of(ext);
            if is_text4(&chars, 'v', 'e', 'r', 't') {
                SourceKind::Vertex
            } else if is_text4(&chars, 'f', 'r', 'a', 'g') {
                proof {
                    assert(seq!['f', 'r', 'a', 'g'][0] != seq!['v', 'e', 'r', 't'][0]);
                }
                SourceKind::Fragment
            } else {
                SourceKind::Unknown
            }
        },
    }
}

/// Without line information the output is code alone. Where a configuration
/// does not preserve lines, no line of the text that processing a source gives
/// is empty or holds white space alone. The document holds, at any depth,
/// nothing but lines of code that are not blank and hold no comment; and its
/// own lines are the plain code of the source, whole and in the order of the
/// source.
pub proof fn lemma_discarded_output(
    config: Config,
    registry: Seq<Seq<char>>,
    name: Seq<char>,
    source: Seq<char>,
    stack: Seq<Seq<char>>,
    file_id: nat,
    version: Option<Seq<char>>,
)
    requires
        !config.preserve_line_info,
        version is Some ==> crate::text::flat(version->0),
    ensures
        config.outcome(registry, name, source, stack, file_id, version).result matches Ok(d) ==> {
            &&& crate::text::no_blank_line(crate::document::render(d))
            &&& crate::laws::tidy(d)
            &&& crate::laws::plain_code(d.body) == crate::laws::plain_lines(
                scan(source),
                scan(source).len() as int,
            )
        },
{
    let frame = Frame { name, id: file_id, lines: scan(source), stack, inherited: version };
    let table = table_of(config.includes@);
    lemma_scan_is_clean(source);
    assert forall|k: int| 0 <= k < table.len() implies clean((#[trigger] table[k]).lines) by {
        lemma_scan_is_clean(config.includes@[k].content@);
    }
    crate::laws::lemma_discarded_output_is_tidy(config.rules(), table, frame, registry);
    crate::laws::lemma_discarded_text(config.rules(), table, frame, registry);
    crate::laws::lemma_plain_code_is_kept(config.rules(), table, frame, registry);
}

/// Processing a top-level source succeeds where no file that the source
/// leads to asks for itself, is missing from the table, or declares another
/// version than the source resolves to. It gives a well-shaped document, into
/// which no inclusion directive was copied, and in which no document stands
/// more documents deep than the table has files.
pub proof fn lemma_processing_succeeds(
    config: Config,
    registry: Seq<Seq<char>>,
    name: Seq<char>,
    source: Seq<char>,
)
    requires
        crate::reach::acyclic_from(table_of(config.includes@), scan(source)),
        crate::reach::present_from(table_of(config.includes@), scan(source)),
        crate::reach::agreeing_from(
            table_of(config.includes@),
            scan(source),
            match crate::chains::declared(scan(source)) {
                Some(version) => version,
                None => default_version(config.lang),
            },
        ),
    ensures
        config.outcome(registry, name, source, Seq::empty(), 0, None).result matches Ok(d) && {
            &&& crate::laws::shaped(config.rules(), table_of(config.includes@), Seq::empty(), d)
            &&& crate::laws::depth_within(d, config.includes@.len())
        },
{
    let frame = Frame {
        name,
        id: 0,
        lines: scan(source),
        stack: Seq::empty(),
        inherited: None,
    };
    let table = table_of(config.includes@);
    crate::reach::lemma_success(config.rules(), table, frame, registry);
    crate::laws::lemma_depth(config.rules(), table, frame, registry);
}

fn default_text(lang: Language) -> (r: Vec<char>)
    ensures
        r@ == default_version(lang),
{
    match lang {
        Language::OpenGl => text3('1', '1', '0'),
        Language::OpenGlEs20 | Language::OpenGlEs30 => text3('1', '0', '0'),
    }
}

fn scan_table(includes: &Vec<Included>) -> (r: Vec<ScannedFile>)
    requires
        patterns_accepted(),
    ensures
        file_views(r@) == table_of(includes@),
{
    let mut out: Vec<ScannedFile> = Vec::new();
    let mut i: usize = 0;
    while i < includes.len()
        invariant
            i <= includes.len(),
            patterns_accepted(),
            file_views(out@) == table_of(includes@).take(i as int),
        decreases includes.len() - i,
    {
        let ghost before = file_views(out@);
        let file = ScannedFile {
            name: chars_of(includes[i].name.as_str()),
            lines: scan_source(includes[i].content.as_str()),
        };
        assert(file@ == table_of(includes@)[i as int]);
        out.push(file);
        assert(file_views(out@) == before.push(table_of(includes@)[i as int]));
        assert(table_of(includes@).take(i as int).push(table_of(includes@)[i as int]) == table_of(
            includes@,
        ).take(i + 1));
        i += 1;
    }
    assert(table_of(includes@).take(includes.len() as int) == table_of(includes@));
    out
}

fn stack_texts(stack: &Vec<String>) -> (r: Vec<Vec<char>>)
    ensures
        texts(r@) == names_of(stack@),
{
    let mut out: Vec<Vec<char>> = Vec::new();
    let mut i: usize = 0;
    while i < stack.len()
        invariant
            i <= stack.len(),
            texts(out@) == names_of(stack@).take(i as int),
        decreases stack.len() - i,
    {
        let ghost before = texts(out@);
        out.push(chars_of(stack[i].as_str()));
        assert(texts(out@) == before.push(names_of(stack@)[i as int]));
        assert(names_of(stack@).take(i as int).push(names_of(stack@)[i as int]) == names_of(
            stack@,
        ).take(i + 1));
        i += 1;
    }
    assert(names_of(stack@).take(stack.len() as int) == names_of(stack@));
    out
}

/// One assembled source: its name, its version, and the text or the shader
/// that the native optimizer is to work on.
#[derive(Debug, PartialEq, Eq)]
pub struct Artifact {
    pub name: String,
    pub version: String,
    pub output: Optimized,
}

impl Config {
    /// The settings that an expansion goes by under this configuration.
    pub open spec fn rules(self) -> Rules {
        Rules { preserve: self.preserve_line_info, default_version: default_version(self.lang) }
    }

    /// What processing a source gives under this configuration, where the
    /// matcher accepts the patterns: the expansion of the scanned source
    /// against the scanned table.
    pub open spec fn outcome(
        self,
        registry: Seq<Seq<char>>,
        name: Seq<char>,
        source: Seq<char>,
        stack: Seq<Seq<char>>,
        file_id: nat,
        version: Option<Seq<char>>,
    ) -> Outcome {
        run(
            self.rules(),
            table_of(self.includes@),
            Frame { name, id: file_id, lines: scan(source), stack, inherited: version },
            0,
            start(registry),
        )
    }

    /// What is to become of an assembled text: the native optimizer works
    /// on it where the configuration asks for optimizing, the optimizer is
    /// tested with the version, and the source is a vertex or fragment shader
    /// (then the kind is given); else the text stays as it is.
    pub open spec fn planned(self, text: Seq<char>, version: Seq<char>, kind: SourceKind) -> (
        Option<SourceKind>,
        Seq<char>,
    ) {
        if supported(self.lang, self.allow_untested, version) && self.optimizer is Some {
            crate::optimize::optimize_spec(text, kind)
        } else {
            (None, text)
        }
    }

    /// A configuration without sources and includes, which preserves line
    /// information and does not optimize.
    pub fn new(lang: Language) -> (r: Config)
        ensures
            r.lang == lang,
            r.sources@.len() == 0,
            r.includes@.len() == 0,
            r.optimizer is None,
            r.preserve_line_info,
            !r.allow_untested,
    {
        Config {
            lang,
            sources: Vec::new(),
            includes: Vec::new(),
            optimizer: None,
            preserve_line_info: true,
            allow_untested: false,
        }
    }

    /// Asks for optimized output, which goes without line information.
    pub fn optimize(self) -> (r: Config)
        ensures
            r.optimizer == Some(Optimizer { lang: self.lang }),
            !r.preserve_line_info,
            r.lang == self.lang,
            r.sources == self.sources,
            r.includes == self.includes,
            r.allow_untested == self.allow_untested,
    {
        let mut r = self;
        r.preserve_line_info = false;
        r.optimizer = Some(Optimizer::new(r.lang));
        r
    }

    /// Asks for output without comments, blank lines and resuming markers.
    pub fn discard_line_info(self) -> (r: Config)
        ensures
            !r.preserve_line_info,
            r.lang == self.lang,
            r.sources == self.sources,
            r.includes == self.includes,
            r.optimizer == self.optimizer,
            r.allow_untested == self.allow_untested,
    {
        let mut r = self;
        r.preserve_line_info = false;
        r
    }

    /// Lets the optimizer work on versions that it is not tested with.
    pub fn allow_untested_versions(self) -> (r: Config)
        ensures
            r.allow_untested,
            r.lang == self.lang,
            r.sources == self.sources,
            r.includes == self.includes,
            r.optimizer == self.optimizer,
            r.preserve_line_info == self.preserve_line_info,
    {
        let mut r = self;
        r.allow_untested = true;
        r
    }

    /// Adds a vertex shader for each path.
    pub fn vertex(self, paths: Vec<String>) -> (r: Config)
        ensures
            r.sources@ == self.sources@ + sources_of(paths@, SourceKind::Vertex),
            r.lang == self.lang,
            r.includes == self.includes,
            r.optimizer == self.optimizer,
            r.preserve_line_info == self.preserve_line_info,
            r.allow_untested == self.allow_untested,
    {
        let mut r = self;
        let ghost before = r.sources@;
        let mut i: usize = 0;
        while i < paths.len()
            invariant
                i <= paths.len(),
                r.sources@ == before + sources_of(paths@, SourceKind::Vertex).take(i as int),
                r.lang == self.lang,
                r.includes == self.includes,
                r.optimizer == self.optimizer,
                r.preserve_line_info == self.preserve_line_info,
                r.allow_untested == self.allow_untested,
            decreases paths.len() - i,
        {
            r.sources.push(Source::new(paths[i].clone(), SourceKind::Vertex));
            assert(sources_of(paths@, SourceKind::Vertex).take(i as int).push(
                sources_of(paths@, SourceKind::Vertex)[i as int],
            ) == sources_of(paths@, SourceKind::Vertex).take(i + 1));
            i += 1;
        }
        assert(sources_of(paths@, SourceKind::Vertex).take(paths.len() as int) == sources_of(
            paths@,
            SourceKind::Vertex,
        ));
        r
    }

    /// Adds a fragment shader for each path.
    pub fn fragment(self, paths: Vec<String>) -> (r: Config)
        ensures
            r.sources@ == self.sources@ + sources_of(paths@, SourceKind::Fragment),
            r.lang == self.lang,
            r.includes == self.includes,
            r.optimizer == self.optimizer,
            r.preserve_line_info == self.preserve_line_info,
            r.allow_untested == self.allow_untested,
    {
        let mut r = self;
        let ghost before = r.sources@;
        let mut i: usize = 0;
        while i < paths.len()
            invariant
                i <= paths.len(),
                r.sources@ == before + sources_of(paths@, SourceKind::Fragment).take(i as int),
                r.lang == self.lang,
                r.includes == self.includes,
                r.optimizer == self.optimizer,
                r.preserve_line_info == self.preserve_line_info,
                r.allow_untested == self.allow_untested,
            decreases paths.len() - i,
        {
            r.sources.push(Source::new(paths[i].clone(), SourceKind::Fragment));
            assert(sources_of(paths@, SourceKind::Fragment).take(i as int).push(
                sources_of(paths@, SourceKind::Fragment)[i as int],
            ) == sources_of(paths@, SourceKind::Fragment).take(i + 1));
            i += 1;
        }
        assert(sources_of(paths@, SourceKind::Fragment).take(paths.len() as int) == sources_of(
            paths@,
            SourceKind::Fragment,
        ));
        r
    }

    /// Adds a source for each path, of the kind that the file extension
    /// beside it stands for.
    pub fn source(self, files: Vec<(String, Option<String>)>) -> (r: Config)
        ensures
            r.sources@ == self.sources@ + sources_by_extension(files@),
            r.lang == self.lang,
            r.includes == self.includes,
            r.optimizer == self.optimizer,
            r.preserve_line_info == self.preserve_line_info,
            r.allow_untested == self.allow_untested,
    {
        let mut r = self;
        let ghost before = r.sources@;
        let mut i: usize = 0;
        while i < files.len()
            invariant
                i <= files.len(),
                r.sources@ == before + sources_by_extension(files@).take(i as int),
                r.lang == self.lang,
                r.includes == self.includes,
                r.optimizer == self.optimizer,
                r.preserve_line_info == self.preserve_line_info,
                r.allow_untested == self.allow_untested,
            decreases files.len() - i,
        {
            let kind = match &files[i].1 {
                Some(ext) => source_kind(Some(ext.as_str())),
                None => source_kind(None),
            };
            r.sources.push(Source::new(files[i].0.clone(), kind));
            assert(sources_by_extension(files@).take(i as int).push(
                sources_by_extension(files@)[i as int],
            ) == sources_by_extension(files@).take(i + 1));
            i += 1;
        }
        assert(sources_by_extension(files@).take(files.len() as int) == sources_by_extension(
            files@,
        ));
        r
    }

    /// Adds texts that sources can include. A text under a name that the
    /// table holds already takes the place of the earlier one, so that no
    /// name comes to stand twice.
    pub fn includes(self, files: Vec<Included>) -> (r: Config)
        ensures
            r.includes@ == with_all_included(self.includes@, files@, files@.len()),
            crate::registry::distinct(included_names(self.includes@)) ==> crate::registry::distinct(
                included_names(r.includes@),
            ),
            r.lang == self.lang,
            r.sources == self.sources,
            r.optimizer == self.optimizer,
            r.preserve_line_info == self.preserve_line_info,
            r.allow_untested == self.allow_untested,
    {
        let mut r = self;
        let mut i: usize = 0;
        while i < files.len()
            invariant
                i <= files.len(),
                r.includes@ == with_all_included(self.includes@, files@, i as nat),
                crate::registry::distinct(included_names(self.includes@))
                    ==> crate::registry::distinct(included_names(r.includes@)),
                r.lang == self.lang,
                r.sources == self.sources,
                r.optimizer == self.optimizer,
                r.preserve_line_info == self.preserve_line_info,
                r.allow_untested == self.allow_untested,
            decreases files.len() - i,
        {
            let entry = Included { name: files[i].name.clone(), content: files[i].content.clone() };
            assert(entry == files@[i as int]);
            proof {
                lemma_with_included(r.includes@, entry);
                crate::registry::lemma_with_name(included_names(r.includes@), entry.name@);
            }
            let at = find_included(&r.includes, &entry.name);
            if at < r.includes.len() {
                r.includes.set(at, entry);
            } else {
                r.includes.push(entry);
            }
            i += 1;
        }
        r
    }

    /// Expands a source: splices the includes it asks for, gives them ids
    /// in `include_map`, and reconciles the versions. Gives the assembled
    /// text and the version.
    ///
    /// `name` and `file_id` are the source's own; `include_stack` holds the
    /// names of the included files that are being expanded, this one last,
    /// and `version` the version of the including file. A top-level source
    /// has the id 0, an empty stack and no inherited version.
    pub fn process(
        &self,
        include_map: &mut FileIds,
        name: &str,
        source: &str,
        include_stack: Vec<String>,
        file_id: usize,
        version: Option<&str>,
    ) -> (r: Result<(String, String), ProcessError>)
        ensures
            !patterns_accepted() ==> r == Err::<(String, String), ProcessError>(
                ProcessError::Pattern,
            ) && final(include_map)@ == old(include_map)@,
            patterns_accepted() ==> ({
                let out = self.outcome(
                    old(include_map)@,
                    name@,
                    source@,
                    names_of(include_stack@),
                    file_id as nat,
                    optional_text(version),
                );
                final(include_map)@ == out.registry && tells(r, out)
            }),
            old(include_map).wf() ==> final(include_map).wf(),
    {
        if !patterns_compile() {
            return Err(ProcessError::Pattern);
        }
        let table = scan_table(&self.includes);
        let lines = scan_source(source);
        let stack = stack_texts(&include_stack);
        let fallback = default_text(self.lang);
        let own_name = chars_of(name);
        let inherited: Option<Vec<char>> = match version {
            Some(v) => Some(chars_of(v)),
            None => None,
        };
        let expanded = expand(
            self.preserve_line_info,
            &fallback,
            &table,
            include_map,
            &own_name,
            &lines,
            &stack,
            file_id,
            inherited.as_ref(),
        );
        match expanded {
            Ok(done) => Ok((string_of(&done.text), string_of(&done.version))),
            Err(e) => Err(e),
        }
    }

    /// Assembles one top-level source for the build: expands it without the
    /// white space at its end, and says what is to become of the text.
    pub fn build_one(
        &self,
        include_map: &mut FileIds,
        name: &str,
        kind: SourceKind,
        source: &str,
    ) -> (r: Result<Artifact, ProcessError>)
        ensures
            !patterns_accepted() ==> r == Err::<Artifact, ProcessError>(ProcessError::Pattern)
                && final(include_map)@ == old(include_map)@,
            patterns_accepted() ==> ({
                let out = self.outcome(
                    old(include_map)@,
                    name@,
                    trim_end(source@),
                    Seq::empty(),
                    0,
                    None,
                );
                &&& final(include_map)@ == out.registry
                &&& match out.result {
                    Err(failure) => r is Err && r->Err_0@ == failure,
                    Ok(document) => {
                        &&& r is Ok
                        &&& r->Ok_0.name@ == name@
                        &&& r->Ok_0.version@ == document.version
                        &&& crate::optimize::optimized_view(r->Ok_0.output) == self.planned(
                            crate::document::render(document),
                            document.version,
                            kind,
                        )
                        &&& r->Ok_0.output matches Optimized::Native(shader) ==> shader.wf()
                    },
                }
            }),
            old(include_map).wf() ==> final(include_map).wf(),
    {
        let mut chars = chars_of(source);
        trim_text_end(&mut chars);
        let trimmed = string_of(&chars);
        let stack: Vec<String> = Vec::new();
        assert(names_of(stack@) == Seq::<Seq<char>>::empty());
        match self.process(include_map, name, trimmed.as_str(), stack, 0, None) {
            Err(e) => Err(e),
            Ok((text, version)) => {
                let output = if self.version_supported(version.clone()) {
                    self.do_optimize(text, kind)
                } else {
                    Optimized::Unchanged(text)
                };
                Ok(Artifact { name: name.to_owned(), version, output })
            },
        }
    }

    /// Whether the optimizer is to be tried on a source of that version.
    pub fn version_supported(&self, version: String) -> (r: bool)
        ensures
            r == supported(self.lang, self.allow_untested, version@),
    {
        if self.allow_untested {
            return true;
        }
        let v = chars_of(version.as_str());
        match self.lang {
            Language::OpenGl => is_text3(&v, '1', '1', '0') || is_text3(&v, '1', '2', '0'),
            Language::OpenGlEs20 | Language::OpenGlEs30 => is_text3(&v, '1', '0', '0') || is_text3(
                &v,
                '3',
                '0',
                '0',
            ),
        }
    }

    /// What becomes of an assembled source: without an optimizer it stays
    /// as it is, with one the optimizer decides.
    pub fn do_optimize(&self, source: String, kind: SourceKind) -> (r: Optimized)
        ensures
            self.optimizer is None ==> r == Optimized::Unchanged(source),
            self.optimizer is Some ==> crate::optimize::optimized_view(r)
                == crate::optimize::optimize_spec(source@, kind),
            r matches Optimized::Native(shader) ==> shader.wf(),
    {
        match &self.optimizer {
            Some(optimizer) => optimizer.optimize(source, kind),
            None => Optimized::Unchanged(source),
        }
    }
}

} // verus!
