//! The expansion of inclusion directives: what it writes, which ids it
//! gives, and when it fails.

use crate::document::{
    comment_opener, lemma_render_push, marker, render, render_all, render_piece,
    version_line, Document, Piece,
};
use crate::registry::{
    find_name, id_of, known, lemma_known, position, position_from, with_name, FileIds,
};
use crate::scanned::{
    file_names, file_views, line_views, Failure, File, Line, ProcessError, ScannedFile,
    ScannedLine,
};
use crate::text::{
    blank, is_blank, push_decimal, push_text, same_text, slice_text, string_of, texts,
    trim_text_end,
};
use vstd::prelude::*;

verus! {

/// The settings that an expansion goes by.
pub struct Rules {
    /// Keep every source line in place, and write a marker behind each
    /// spliced file.
    pub preserve: bool,
    /// The version of a tree whose top-level source declares none.
    pub default_version: Seq<char>,
}

/// The file that is being expanded.
pub struct Frame {
    pub name: Seq<char>,
    /// Its id: 0 for a top-level source.
    pub id: nat,
    pub lines: Seq<Line>,
    /// The names of the included files that are being expanded, this one
    /// last; empty for a top-level source.
    pub stack: Seq<Seq<char>>,
    /// The version of the including file.
    pub inherited: Option<Seq<char>>,
}

/// How far the expansion of one file has come.
pub struct Progress {
    /// What was written for the lines read so far.
    pub pieces: Seq<Piece>,
    /// Whether a line that is neither blank nor comment was read.
    pub started: bool,
    /// The version in force, once started.
    pub version: Seq<char>,
    /// The line number for the leading marker.
    pub first_line: nat,
    /// The names with an id, in the order of their ids.
    pub registry: Seq<Seq<char>>,
}

/// The end of an expansion: the registry as it then stands, and the document
/// or the reason for stopping.
pub struct Outcome {
    pub registry: Seq<Seq<char>>,
    pub result: Result<Document, Failure>,
}

/// The state before the first line.
pub open spec fn start(registry: Seq<Seq<char>>) -> Progress {
    Progress { pieces: Seq::empty(), started: false, version: Seq::empty(), first_line: 1, registry }
}

/// The version of a file that declares none: that of the including file, or
/// the default.
pub open spec fn base_version(rules: Rules, frame: Frame) -> Seq<char> {
    match frame.inherited {
        Some(v) => v,
        None => rules.default_version,
    }
}

/// The document of a file whose lines were all read.
pub open spec fn finish(rules: Rules, frame: Frame, st: Progress) -> Document {
    Document {
        top: frame.stack.len() == 0,
        name: frame.name,
        version: if st.started {
            st.version
        } else {
            base_version(rules, frame)
        },
        first_line: st.first_line,
        file: frame.id,
        preserved: rules.preserve,
        body: st.pieces,
    }
}

/// How many names of the table are not on the stack: the depth that is left
/// for inclusions.
pub open spec fn remaining(table: Seq<File>, stack: Seq<Seq<char>>) -> nat {
    file_names(table).to_set().difference(stack.to_set()).len()
}

/// Expanding a file of the table that is not yet on the stack leaves less
/// depth.
pub proof fn lemma_descent(table: Seq<File>, stack: Seq<Seq<char>>, target: Seq<char>)
    requires
        known(file_names(table), target),
        !known(stack, target),
    ensures
        remaining(table, stack.push(target)) < remaining(table, stack),
{
    lemma_known(file_names(table), target);
    lemma_known(stack, target);
    let names = file_names(table).to_set();
    let before = names.difference(stack.to_set());
    let after = names.difference(stack.push(target).to_set());
    vstd::seq_lib::seq_to_set_is_finite(file_names(table));
    assert(before.finite());
    assert(before.contains(target));
    assert forall|x: Seq<char>| after.contains(x) <==> before.remove(target).contains(x) by {
        if x != target {
            if stack.contains(x) {
                let k = choose|k: int| 0 <= k < stack.len() && stack[k] == x;
                assert(stack.push(target)[k] == x);
            }
            if stack.push(target).contains(x) {
                let k = choose|k: int| 0 <= k < stack.push(target).len() && stack.push(target)[k] == x;
                assert(stack[k] == x);
            }
        } else {
            assert(stack.push(target)[stack.len() as int] == target);
        }
    }
    assert(after =~= before.remove(target));
}

/// What one line asks of the expansion.
pub enum Step {
    /// Go on with the next line, in this state.
    Next(Progress),
    /// Stop with this failure.
    Stop(Failure),
    /// Splice the file that the line names, in this state, and go on.
    Splice(Progress),
}

/// What line `i` of `frame` asks for, in the state `st`.
///
/// A line inside a block comment, and a blank one, is copied where lines are
/// preserved and dropped where they are not. The first other line sets the
/// version: a version directive gives it, must agree with the including file,
/// and leaves an empty line (or a comment opener) where lines are preserved
/// and it is not the first; any other line takes the inherited or the default
/// version. Where lines are not preserved an included file loses its later
/// version directives. An inclusion directive has its target spliced, which
/// must be in the table and not on the stack. Every other line is copied: as
/// written where lines are preserved, else without its comments.
pub open spec fn step(rules: Rules, table: Seq<File>, frame: Frame, i: int, st: Progress) -> Step
    recommends
        0 <= i < frame.lines.len(),
{
    let line = frame.lines[i];
    if line.swallowed || blank(line.code) {
        Step::Next(
            if rules.preserve {
                Progress { pieces: st.pieces.push(Piece::Raw(line)), ..st }
            } else {
                st
            },
        )
    } else if !st.started && line.version is Some {
        let found = line.version->0;
        if frame.inherited is Some && frame.inherited->0 != found {
            Step::Stop(Failure::Version { file: frame.name, found, expected: frame.inherited->0 })
        } else {
            let pieces = if rules.preserve && i > 0 {
                st.pieces.push(Piece::Filler(line.open_after))
            } else {
                st.pieces
            };
            Step::Next(
                Progress {
                    pieces,
                    started: true,
                    version: found,
                    first_line: 2,
                    registry: st.registry,
                },
            )
        }
    } else {
        let version = if st.started {
            st.version
        } else {
            base_version(rules, frame)
        };
        let st = Progress { started: true, version, ..st };
        if !rules.preserve && frame.stack.len() > 0 && line.version is Some {
            Step::Next(st)
        } else if line.target is None {
            let piece = if rules.preserve {
                Piece::Raw(line)
            } else {
                Piece::Code(line)
            };
            Step::Next(Progress { pieces: st.pieces.push(piece), ..st })
        } else if !known(file_names(table), line.target->0) {
            Step::Stop(Failure::Missing { file: frame.name, target: line.target->0 })
        } else if known(frame.stack, line.target->0) {
            Step::Stop(Failure::Cycle { target: line.target->0, file: frame.name })
        } else {
            Step::Splice(st)
        }
    }
}

/// The frame of the file that line `i` of `frame` names, once the registry
/// holds the name.
pub open spec fn inner_frame(
    table: Seq<File>,
    frame: Frame,
    i: int,
    st: Progress,
    registry: Seq<Seq<char>>,
) -> Frame {
    let target = frame.lines[i].target->0;
    Frame {
        name: target,
        id: id_of(registry, target),
        lines: table[position(file_names(table), target)].lines,
        stack: frame.stack.push(target),
        inherited: Some(st.version),
    }
}

/// The state behind a splice: the document of the included file, and where
/// lines are preserved a marker that resumes the including file at its next
/// line and, inside an open block comment, a comment opener.
pub open spec fn resume(
    rules: Rules,
    frame: Frame,
    i: int,
    st: Progress,
    registry: Seq<Seq<char>>,
    document: Document,
) -> Progress {
    let spliced = st.pieces.push(Piece::Nested(document));
    let resumed = if rules.preserve {
        spliced.push(Piece::Resume { line: (i + 2) as nat, file: frame.id })
    } else {
        spliced
    };
    let pieces = if rules.preserve && frame.lines[i].open_after {
        resumed.push(Piece::Filler(true))
    } else {
        resumed
    };
    Progress { pieces, registry, ..st }
}

/// The expansion of `frame` from its line `i` on, in the state `st`: line by
/// line as `step` says, and at a splice the whole expansion of the included
/// file first, with the registry handed through.
pub open spec fn run(rules: Rules, table: Seq<File>, frame: Frame, i: int, st: Progress) -> Outcome
    decreases remaining(table, frame.stack), frame.lines.len() - i,
{
    if i < 0 || i >= frame.lines.len() {
        Outcome { registry: st.registry, result: Ok(finish(rules, frame, st)) }
    } else {
        match step(rules, table, frame, i, st) {
            Step::Next(next) => run(rules, table, frame, i + 1, next),
            Step::Stop(failure) => Outcome { registry: st.registry, result: Err(failure) },
            Step::Splice(at) => {
                let target = frame.lines[i].target->0;
                let registry = with_name(at.registry, target);
                proof {
                    lemma_descent(table, frame.stack, target);
                }
                let inner = run(
                    rules,
                    table,
                    inner_frame(table, frame, i, at, registry),
                    0,
                    start(registry),
                );
                match inner.result {
                    Err(failure) => Outcome { registry: inner.registry, result: Err(failure) },
                    Ok(document) => run(
                        rules,
                        table,
                        frame,
                        i + 1,
                        resume(rules, frame, i, at, inner.registry, document),
                    ),
                }
            },
        }
    }
}

/// The text and the version that an expansion gives.
#[derive(Debug, PartialEq, Eq)]
pub struct Expanded {
    pub text: Vec<char>,
    pub version: Vec<char>,
}

/// The characters of an inherited version.
pub open spec fn inherited_text(inherited: Option<&Vec<char>>) -> Option<Seq<char>> {
    match inherited {
        Some(v) => Some(v@),
        None => None,
    }
}

/// A result says what an outcome says: the text is the document laid out,
/// the version is the document's, the error is the failure.
pub open spec fn agrees(r: Result<Expanded, ProcessError>, out: Outcome) -> bool {
    match out.result {
        Ok(document) => r is Ok && r->Ok_0.text@ == render(document) && r->Ok_0.version@
            == document.version,
        Err(failure) => r is Err && r->Err_0@ == failure,
    }
}

/// The place of the first file of the table with that name, or the table's
/// length.
pub fn find_file(table: &Vec<ScannedFile>, name: &Vec<char>) -> (at: usize)
    ensures
        at as int == position(file_names(file_views(table@)), name@),
{
    let ghost names = file_names(file_views(table@));
    let mut i: usize = 0;
    while i < table.len()
        invariant
            i <= table.len(),
            names == file_names(file_views(table@)),
            names.len() == table.len(),
            position(names, name@) == position_from(names, name@, i as int),
        decreases table.len() - i,
    {
        assert(names[i as int] == table@[i as int].name@);
        if same_text(&table[i].name, name) {
            return i;
        }
        i += 1;
    }
    i
}

fn copy_text(s: &Vec<char>) -> (r: Vec<char>)
    ensures
        r@ == s@,
{
    let r = slice_text(s, 0, s.len());
    assert(s@.subrange(0, s@.len() as int) == s@);
    r
}

/// The stack with one more name on it.
fn extended(stack: &Vec<Vec<char>>, name: &Vec<char>) -> (r: Vec<Vec<char>>)
    ensures
        texts(r@) == texts(stack@).push(name@),
{
    let mut out: Vec<Vec<char>> = Vec::new();
    let mut i: usize = 0;
    while i < stack.len()
        invariant
            i <= stack.len(),
            texts(out@) == texts(stack@).take(i as int),
        decreases stack.len() - i,
    {
        let ghost before = texts(out@);
        out.push(copy_text(&stack[i]));
        assert(texts(out@) == before.push(stack@[i as int]@));
        assert(texts(stack@).take(i as int).push(texts(stack@)[i as int]) == texts(stack@).take(
            i + 1,
        ));
        i += 1;
    }
    assert(texts(stack@).take(stack.len() as int) == texts(stack@));
    let ghost before = texts(out@);
    out.push(copy_text(name));
    assert(texts(out@) == before.push(name@));
    out
}

/// Writes the marker `#line <line> <file>` and a line feed.
fn push_marker(out: &mut Vec<char>, line: u128, file: usize)
    ensures
        final(out)@ == old(out)@ + marker(line as nat, file as nat),
{
    out.push('#');
    out.push('l');
    out.push('i');
    out.push('n');
    out.push('e');
    out.push(' ');
    assert(out@ == old(out)@ + seq!['#', 'l', 'i', 'n', 'e', ' ']);
    push_decimal(out, line);
    out.push(' ');
    push_decimal(out, file as u128);
    out.push('\n');
    assert(out@ == old(out)@ + marker(line as nat, file as nat));
}

/// Writes `#version <version>` and a line feed.
fn push_version_line(out: &mut Vec<char>, version: &Vec<char>)
    ensures
        final(out)@ == old(out)@ + version_line(version@),
{
    out.push('#');
    out.push('v');
    out.push('e');
    out.push('r');
    out.push('s');
    out.push('i');
    out.push('o');
    out.push('n');
    out.push(' ');
    assert(out@ == old(out)@ + seq!['#', 'v', 'e', 'r', 's', 'i', 'o', 'n', ' ']);
    push_text(out, version);
    out.push('\n');
    assert(out@ == old(out)@ + version_line(version@));
}

/// The text `/*`.
fn opener_text() -> (r: Vec<char>)
    ensures
        r@ == comment_opener(),
{
    let mut r: Vec<char> = Vec::new();
    r.push('/');
    r.push('*');
    assert(r@ == comment_opener());
    r
}

/// The body of one file while it is written, and the version state beside
/// it.
struct Writer {
    output: Vec<char>,
    started: bool,
    version: Vec<char>,
    first_line: u128,
    pieces: Ghost<Seq<Piece>>,
}

impl Writer {
    /// The text is the pieces laid out.
    spec fn wf(self) -> bool {
        &&& self.output@ == render_all(self.pieces@)
        &&& (self.first_line == 1 || self.first_line == 2)
    }

    spec fn progress(self, registry: Seq<Seq<char>>) -> Progress {
        Progress {
            pieces: self.pieces@,
            started: self.started,
            version: self.version@,
            first_line: self.first_line as nat,
            registry,
        }
    }

    fn new() -> (w: Writer)
        ensures
            w.wf(),
            forall|registry: Seq<Seq<char>>| #[trigger] w.progress(registry) == start(registry),
    {
        Writer {
            output: Vec::new(),
            started: false,
            version: Vec::new(),
            first_line: 1,
            pieces: Ghost(Seq::empty()),
        }
    }

    /// Writes a line of text for a piece that is laid out as that line.
    fn write(&mut self, text: &Vec<char>, piece: Ghost<Piece>)
        requires
            old(self).wf(),
            render_piece(piece@) == text@.push('\n'),
        ensures
            final(self).wf(),
            final(self).pieces@ == old(self).pieces@.push(piece@),
            final(self).started == old(self).started,
            final(self).version == old(self).version,
            final(self).first_line == old(self).first_line,
    {
        push_text(&mut self.output, text);
        self.output.push('\n');
        proof {
            lemma_render_push(self.pieces@, piece@);
            assert(self.output@ == old(self).output@ + text@.push('\n'));
            self.pieces@ = self.pieces@.push(piece@);
        }
    }

    /// Writes a text for a piece that is laid out as that text.
    fn write_whole(&mut self, text: &Vec<char>, piece: Ghost<Piece>)
        requires
            old(self).wf(),
            render_piece(piece@) == text@,
        ensures
            final(self).wf(),
            final(self).pieces@ == old(self).pieces@.push(piece@),
            final(self).started == old(self).started,
            final(self).version == old(self).version,
            final(self).first_line == old(self).first_line,
    {
        push_text(&mut self.output, text);
        proof {
            lemma_render_push(self.pieces@, piece@);
            self.pieces@ = self.pieces@.push(piece@);
        }
    }

    /// Writes the marker that resumes `file` at `line`.
    fn write_marker(&mut self, line: u128, file: usize)
        requires
            old(self).wf(),
        ensures
            final(self).wf(),
            final(self).pieces@ == old(self).pieces@.push(
                Piece::Resume { line: line as nat, file: file as nat },
            ),
            final(self).started == old(self).started,
            final(self).version == old(self).version,
            final(self).first_line == old(self).first_line,
    {
        push_marker(&mut self.output, line, file);
        proof {
            lemma_render_push(
                self.pieces@,
                Piece::Resume { line: line as nat, file: file as nat },
            );
            self.pieces@ = self.pieces@.push(
                Piece::Resume { line: line as nat, file: file as nat },
            );
        }
    }

    /// Does for one line what `step` says, but for the splice itself: there
    /// it hands back the place of the target in the table.
    fn take(
        &mut self,
        preserve: bool,
        default_version: &Vec<char>,
        table: &Vec<ScannedFile>,
        registry: &FileIds,
        name: &Vec<char>,
        lines: &Vec<ScannedLine>,
        stack: &Vec<Vec<char>>,
        file_id: usize,
        inherited: Option<&Vec<char>>,
        i: usize,
    ) -> (r: Result<Option<usize>, ProcessError>)
        requires
            old(self).wf(),
            i < lines.len(),
        ensures
            final(self).wf(),
            ({
                let frame = Frame {
                    name: name@,
                    id: file_id as nat,
                    lines: line_views(lines@),
                    stack: texts(stack@),
                    inherited: inherited_text(inherited),
                };
                let after = final(self).progress(registry@);
                match step(
                    Rules { preserve, default_version: default_version@ },
                    file_views(table@),
                    frame,
                    i as int,
                    old(self).progress(registry@),
                ) {
                    Step::Next(next) => r == Ok::<Option<usize>, ProcessError>(None) && after
                        == next,
                    Step::Stop(failure) => r is Err && r->Err_0@ == failure,
                    Step::Splice(at) => {
                        &&& r is Ok
                        &&& r->Ok_0 is Some
                        &&& after == at
                        &&& r->Ok_0->0 < table.len()
                        &&& r->Ok_0->0 as int == position(
                            file_names(file_views(table@)),
                            lines@[i as int]@.target->0,
                        )
                    },
                }
            }),
    {
        let line = &lines[i];
        assert(line_views(lines@)[i as int] == line@);
        if line.swallowed || is_blank(&line.code) {
            if preserve {
                self.write(&line.raw, Ghost(Piece::Raw(line@)));
            }
            Ok(None)
        } else if !self.started && line.version.is_some() {
            let found = line.version.as_ref().unwrap();
            match inherited {
                Some(expected) => {
                    if !same_text(expected, found) {
                        return Err(
                            ProcessError::VersionMismatch {
                                file: string_of(name),
                                found: string_of(found),
                                expected: string_of(expected),
                            },
                        );
                    }
                },
                None => {},
            }
            if preserve && i > 0 {
                if line.open_after {
                    let opener = opener_text();
                    self.write(&opener, Ghost(Piece::Filler(true)));
                } else {
                    let empty: Vec<char> = Vec::new();
                    self.write(&empty, Ghost(Piece::Filler(false)));
                }
            }
            self.started = true;
            self.version = copy_text(found);
            self.first_line = 2;
            Ok(None)
        } else {
            if !self.started {
                self.started = true;
                self.version =
                match inherited {
                    Some(v) => copy_text(v),
                    None => copy_text(default_version),
                };
            }
            if !preserve && stack.len() > 0 && line.version.is_some() {
                Ok(None)
            } else {
                match &line.target {
                    None => {
                        if preserve {
                            self.write(&line.raw, Ghost(Piece::Raw(line@)));
                        } else {
                            self.write(&line.code, Ghost(Piece::Code(line@)));
                        }
                        Ok(None)
                    },
                    Some(target) => {
                        let at = find_file(table, target);
                        if at >= table.len() {
                            return Err(
                                ProcessError::MissingInclude {
                                    file: string_of(name),
                                    target: string_of(target),
                                },
                            );
                        }
                        if find_name(stack, target) < stack.len() {
                            return Err(
                                ProcessError::Cycle {
                                    target: string_of(target),
                                    file: string_of(name),
                                },
                            );
                        }
                        Ok(Some(at))
                    },
                }
            }
        }
    }
}

/// Expands the scanned lines of one file: splices the files it includes,
/// gives them ids, and reconciles the versions.
///
/// `name` and `file_id` are the file's own; `stack` holds the names of the
/// included files that are being expanded, this one last, and `inherited`
/// the version of the including file. A top-level source has the id 0, an
/// empty stack and inherits nothing.
pub fn expand(
    preserve: bool,
    default_version: &Vec<char>,
    table: &Vec<ScannedFile>,
    registry: &mut FileIds,
    name: &Vec<char>,
    lines: &Vec<ScannedLine>,
    stack: &Vec<Vec<char>>,
    file_id: usize,
    inherited: Option<&Vec<char>>,
) -> (r: Result<Expanded, ProcessError>)
    ensures
        ({
            let out = run(
                Rules { preserve, default_version: default_version@ },
                file_views(table@),
                Frame {
                    name: name@,
                    id: file_id as nat,
                    lines: line_views(lines@),
                    stack: texts(stack@),
                    inherited: inherited_text(inherited),
                },
                0,
                start(old(registry)@),
            );
            final(registry)@ == out.registry && agrees(r, out)
        }),
        old(registry).wf() ==> final(registry).wf(),
    decreases remaining(file_views(table@), texts(stack@)),
{
    let ghost rules = Rules { preserve, default_version: default_version@ };
    let ghost tab = file_views(table@);
    let ghost frame = Frame {
        name: name@,
        id: file_id as nat,
        lines: line_views(lines@),
        stack: texts(stack@),
        inherited: inherited_text(inherited),
    };
    let ghost goal = run(rules, tab, frame, 0, start(old(registry)@));
    proof {
        crate::laws::lemma_registry_grows(rules, tab, frame, 0, start(old(registry)@));
    }
    let mut writer = Writer::new();
    let mut i: usize = 0;
    while i < lines.len()
        invariant
            i <= lines.len(),
            writer.wf(),
            rules == (Rules { preserve, default_version: default_version@ }),
            tab == file_views(table@),
            frame == (Frame {
                name: name@,
                id: file_id as nat,
                lines: line_views(lines@),
                stack: texts(stack@),
                inherited: inherited_text(inherited),
            }),
            goal == run(rules, tab, frame, 0, start(old(registry)@)),
            goal == run(rules, tab, frame, i as int, writer.progress(registry@)),
            old(registry).wf() ==> crate::registry::distinct(goal.registry),
        decreases lines.len() - i,
    {
        let ghost before = writer.progress(registry@);
        let taken = writer.take(
            preserve,
            default_version,
            table,
            registry,
            name,
            lines,
            stack,
            file_id,
            inherited,
            i,
        );
        match taken {
            Err(e) => {
                return Err(e);
            },
            Ok(None) => {},
            Ok(Some(at)) => {
                let ghost state = writer.progress(registry@);
                assert(step(rules, tab, frame, i as int, before) == Step::Splice(state));
                assert(lines@[i as int].target is Some);
                let target = lines[i].target.as_ref().unwrap();
                let id = registry.resolve(target);
                let inner_stack = extended(stack, target);
                let ghost inner = run(
                    rules,
                    tab,
                    inner_frame(tab, frame, i as int, state, registry@),
                    0,
                    start(registry@),
                );
                proof {
                    lemma_descent(tab, frame.stack, target@);
                    crate::laws::lemma_shape(
                        rules,
                        tab,
                        inner_frame(tab, frame, i as int, state, registry@),
                        registry@,
                    );
                }
                let spliced = expand(
                    preserve,
                    default_version,
                    table,
                    registry,
                    target,
                    &table[at].lines,
                    &inner_stack,
                    id,
                    Some(&writer.version),
                );
                match spliced {
                    Err(e) => {
                        return Err(e);
                    },
                    Ok(done) => {
                        let ghost document = inner.result->Ok_0;
                        assert(document.preserved == preserve);
                        if !preserve && done.text.len() > 0 && done.text[done.text.len() - 1]
                            == '\n' {
                            writer.write_whole(&done.text, Ghost(Piece::Nested(document)));
                        } else {
                            writer.write(&done.text, Ghost(Piece::Nested(document)));
                        }
                        if preserve {
                            writer.write_marker(i as u128 + 2, file_id);
                            if lines[i].open_after {
                                let opener = opener_text();
                                writer.write(&opener, Ghost(Piece::Filler(true)));
                            }
                        }
                        assert(writer.progress(registry@) == resume(
                            rules,
                            frame,
                            i as int,
                            state,
                            registry@,
                            document,
                        ));
                    },
                }
            },
        }
        i += 1;
    }
    if !writer.started {
        writer.version =
        match inherited {
            Some(v) => copy_text(v),
            None => copy_text(default_version),
        };
    }
    let ghost document = finish(rules, frame, writer.progress(registry@));
    let Writer { output, started, version, first_line, pieces } = writer;
    let mut body = output;
    trim_text_end(&mut body);
    let mut text: Vec<char> = Vec::new();
    if stack.len() == 0 {
        push_version_line(&mut text, &version);
    }
    push_marker(&mut text, first_line, file_id);
    push_text(&mut text, &body);
    assert(text@ == render(document));
    Ok(Expanded { text, version })
}

} // verus!
