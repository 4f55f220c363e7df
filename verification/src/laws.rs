//! What holds of every expansion.

use crate::document::{
    expansions, expansions_in, leading_markers, leading_markers_in, resuming_markers,
    resuming_markers_in, Document, Piece,
};
use crate::expand::{
    finish, inner_frame, remaining, resume, run, start, step, Frame, Outcome,
    Progress, Rules, Step,
};
use crate::registry::{
    distinct, id_of, known, lemma_known, lemma_position_from, lemma_with_name, position,
    with_name,
};
use crate::comment::comment_free;
use crate::document::{heading, marker, render, render_all, render_piece, version_line};
use crate::scan::{clean, clean_line};
use crate::text::{
    decimal, ended, flat, lemma_decimal_is_flat, lemma_lines_of_closed, lemma_lines_of_one,
    lemma_lines_of_two, lemma_not_blank, lemma_trimmed_lines, no_blank_line, trim_end,
    white_space,
};
use crate::scanned::{file_names, Failure, File, Line};
use crate::text::blank;
use vstd::prelude::*;

verus! {

/// A line that asks for a file to be spliced in.
pub open spec fn directive(line: Line) -> bool {
    !line.swallowed && !blank(line.code) && line.target is Some
}

/// A document is well shaped below the files named in `path`, the last of
/// which it was read from, when each of its pieces is.
pub open spec fn shaped(rules: Rules, table: Seq<File>, path: Seq<Seq<char>>, d: Document) -> bool
    decreases d,
{
    forall|k: int|
        0 <= k < d.body.len() ==> piece_shaped(
            rules,
            table,
            path,
            Some(d.version),
            d.file,
            #[trigger] d.body[k],
        )
}

/// A piece is well shaped in a file with the id `file`, read below `path`
/// under the version `version`:
/// a line as written stands only where lines are preserved, and is no
/// inclusion directive; a line without its comments stands only where lines
/// are not preserved, and is neither inside a comment, nor blank, nor an
/// inclusion directive; fillers and resuming markers stand only where lines
/// are preserved, and a marker resumes the file it stands in; a spliced
/// document is that of a file of the table which is not on the path, has the
/// version of the file around it, and is well shaped below the longer path.
pub open spec fn piece_shaped(
    rules: Rules,
    table: Seq<File>,
    path: Seq<Seq<char>>,
    version: Option<Seq<char>>,
    file: nat,
    p: Piece,
) -> bool
    decreases p,
{
    match p {
        Piece::Raw(line) => rules.preserve && !directive(line),
        Piece::Code(line) => !rules.preserve && !line.swallowed && !blank(line.code)
            && line.target is None,
        Piece::Filler(_) => rules.preserve,
        Piece::Resume { line, file: resumed } => rules.preserve && resumed == file && line >= 2,
        Piece::Nested(d) => {
            &&& !d.top
            &&& version == Some(d.version)
            &&& known(file_names(table), d.name)
            &&& !known(path, d.name)
            &&& shaped(rules, table, path.push(d.name), d)
        },
    }
}

/// The version that the pieces written so far stand under: none before the
/// first line that counts.
pub open spec fn version_so_far(st: Progress) -> Option<Seq<char>> {
    if st.started {
        Some(st.version)
    } else {
        None
    }
}

/// The pieces written so far are well shaped.
pub open spec fn pieces_shaped(rules: Rules, table: Seq<File>, frame: Frame, st: Progress) -> bool {
    forall|k: int|
        0 <= k < st.pieces.len() ==> piece_shaped(
            rules,
            table,
            frame.stack,
            version_so_far(st),
            frame.id,
            #[trigger] st.pieces[k],
        )
}

/// Every document that an expansion gives is well shaped: from well-shaped
/// pieces on, the rest of a file's lines adds only well-shaped ones.
pub proof fn lemma_shape_from(rules: Rules, table: Seq<File>, frame: Frame, i: int, st: Progress)
    requires
        0 <= i <= frame.lines.len(),
        pieces_shaped(rules, table, frame, st),
        st.started && frame.inherited is Some ==> st.version == frame.inherited->0,
    ensures
        run(rules, table, frame, i, st).result matches Ok(d) ==> {
            &&& d.name == frame.name
            &&& d.file == frame.id
            &&& d.top == (frame.stack.len() == 0)
            &&& d.preserved == rules.preserve
            &&& frame.inherited is Some ==> d.version == frame.inherited->0
            &&& shaped(rules, table, frame.stack, d)
        },
    decreases remaining(table, frame.stack), frame.lines.len() - i,
{
    if i >= frame.lines.len() {
        let d = finish(rules, frame, st);
        assert forall|k: int| 0 <= k < d.body.len() implies piece_shaped(
            rules,
            table,
            frame.stack,
            Some(d.version),
            d.file,
            #[trigger] d.body[k],
        ) by {
            assert(piece_shaped(
                rules,
                table,
                frame.stack,
                version_so_far(st),
                frame.id,
                st.pieces[k],
            ));
        }
    } else {
        match step(rules, table, frame, i, st) {
            Step::Next(next) => {
                assert forall|k: int| 0 <= k < next.pieces.len() implies piece_shaped(
                    rules,
                    table,
                    frame.stack,
                    version_so_far(next),
                    frame.id,
                    #[trigger] next.pieces[k],
                ) by {
                    if k < st.pieces.len() {
                        assert(piece_shaped(
                            rules,
                            table,
                            frame.stack,
                            version_so_far(st),
                            frame.id,
                            st.pieces[k],
                        ));
                    }
                }
                lemma_shape_from(rules, table, frame, i + 1, next);
            },
            Step::Stop(_) => {},
            Step::Splice(at) => {
                let target = frame.lines[i].target->0;
                let registry = with_name(at.registry, target);
                let inner = inner_frame(table, frame, i, at, registry);
                crate::expand::lemma_descent(table, frame.stack, target);
                lemma_shape_from(rules, table, inner, 0, start(registry));
                let sub = run(rules, table, inner, 0, start(registry));
                match sub.result {
                    Err(_) => {},
                    Ok(document) => {
                        let next = resume(rules, frame, i, at, sub.registry, document);
                        assert forall|k: int| 0 <= k < next.pieces.len() implies piece_shaped(
                            rules,
                            table,
                            frame.stack,
                            version_so_far(next),
                            frame.id,
                            #[trigger] next.pieces[k],
                        ) by {
                            if k < st.pieces.len() {
                                assert(piece_shaped(
                                    rules,
                                    table,
                                    frame.stack,
                                    version_so_far(st),
                                    frame.id,
                                    st.pieces[k],
                                ));
                            }
                        }
                        lemma_shape_from(rules, table, frame, i + 1, next);
                    },
                }
            },
        }
    }
}

/// A document that is the whole outcome of expanding a file from its first
/// line is well shaped: no inclusion directive was copied into it, at any
/// depth; where lines are not preserved it holds neither comment lines, nor
/// blank lines, nor fillers, nor resuming markers; every spliced document is
/// that of a file of the table, stands below no document of the same file,
/// and has the version of the whole tree.
pub proof fn lemma_shape(rules: Rules, table: Seq<File>, frame: Frame, registry: Seq<Seq<char>>)
    ensures
        run(rules, table, frame, 0, start(registry)).result matches Ok(d) ==> {
            &&& d.name == frame.name
            &&& d.file == frame.id
            &&& d.top == (frame.stack.len() == 0)
            &&& d.preserved == rules.preserve
            &&& frame.inherited is Some ==> d.version == frame.inherited->0
            &&& shaped(rules, table, frame.stack, d)
        },
{
    lemma_shape_from(rules, table, frame, 0, start(registry));
}

/// What a piece adds to the count of spliced files.
pub open spec fn spliced_by(p: Piece) -> nat {
    match p {
        Piece::Nested(d) => 1 + expansions(d),
        _ => 0,
    }
}

/// What a piece adds to the count of leading markers.
pub open spec fn led_by(p: Piece) -> nat {
    match p {
        Piece::Nested(d) => leading_markers(d),
        _ => 0,
    }
}

/// What a piece adds to the count of resuming markers.
pub open spec fn resumed_by(p: Piece) -> nat {
    match p {
        Piece::Resume { .. } => 1,
        Piece::Nested(d) => resuming_markers(d),
        _ => 0,
    }
}

proof fn lemma_counts_push(pieces: Seq<Piece>, p: Piece)
    ensures
        expansions_in(pieces.push(p)) == expansions_in(pieces) + spliced_by(p),
        leading_markers_in(pieces.push(p)) == leading_markers_in(pieces) + led_by(p),
        resuming_markers_in(pieces.push(p)) == resuming_markers_in(pieces) + resumed_by(p),
{
    assert(pieces.push(p).drop_last() == pieces);
}

/// Every document holds one leading marker more than it has files spliced
/// into it: its own, and one for each spliced file.
pub proof fn lemma_leading_markers(d: Document)
    ensures
        leading_markers(d) == expansions(d) + 1,
    decreases d,
{
    lemma_leading_markers_in(d.body);
}

proof fn lemma_leading_markers_in(pieces: Seq<Piece>)
    ensures
        leading_markers_in(pieces) == expansions_in(pieces),
    decreases pieces,
{
    if pieces.len() > 0 {
        lemma_leading_markers_in(pieces.drop_last());
        match pieces.last() {
            Piece::Nested(d) => {
                lemma_leading_markers(d);
            },
            _ => {},
        }
    }
}

/// The resuming markers that an expansion is due for so many spliced files:
/// one for each where lines are preserved, none where they are not.
pub open spec fn resuming_due(rules: Rules, spliced: nat) -> nat {
    if rules.preserve {
        spliced
    } else {
        0
    }
}

proof fn lemma_resuming_markers_from(
    rules: Rules,
    table: Seq<File>,
    frame: Frame,
    i: int,
    st: Progress,
)
    requires
        0 <= i <= frame.lines.len(),
        resuming_markers_in(st.pieces) == resuming_due(rules, expansions_in(st.pieces)),
    ensures
        run(rules, table, frame, i, st).result matches Ok(d) ==> resuming_markers(d)
            == resuming_due(rules, expansions(d)),
    decreases remaining(table, frame.stack), frame.lines.len() - i,
{
    if i < frame.lines.len() {
        match step(rules, table, frame, i, st) {
            Step::Next(next) => {
                if next.pieces != st.pieces {
                    let p = next.pieces.last();
                    assert(next.pieces == st.pieces.push(p));
                    lemma_counts_push(st.pieces, p);
                }
                lemma_resuming_markers_from(rules, table, frame, i + 1, next);
            },
            Step::Stop(_) => {},
            Step::Splice(at) => {
                let target = frame.lines[i].target->0;
                let registry = with_name(at.registry, target);
                let inner = inner_frame(table, frame, i, at, registry);
                crate::expand::lemma_descent(table, frame.stack, target);
                lemma_resuming_markers_from(rules, table, inner, 0, start(registry));
                let sub = run(rules, table, inner, 0, start(registry));
                match sub.result {
                    Err(_) => {},
                    Ok(document) => {
                        let next = resume(rules, frame, i, at, sub.registry, document);
                        let spliced = at.pieces.push(Piece::Nested(document));
                        lemma_counts_push(at.pieces, Piece::Nested(document));
                        let marker = Piece::Resume { line: (i + 2) as nat, file: frame.id };
                        lemma_counts_push(spliced, marker);
                        lemma_counts_push(spliced.push(marker), Piece::Filler(true));
                        lemma_resuming_markers_from(rules, table, frame, i + 1, next);
                    },
                }
            },
        }
    }
}

/// The count of line markers. Where lines are preserved, an expansion that
/// spliced `n` files wrote `n` resuming markers and `n + 1` leading ones:
/// one marker in all where nothing was spliced, and two more for every
/// spliced file. Where lines are not preserved it wrote the `n + 1` leading
/// markers alone.
pub proof fn lemma_marker_count(
    rules: Rules,
    table: Seq<File>,
    frame: Frame,
    registry: Seq<Seq<char>>,
)
    ensures
        run(rules, table, frame, 0, start(registry)).result matches Ok(d) ==> {
            &&& leading_markers(d) == expansions(d) + 1
            &&& rules.preserve ==> resuming_markers(d) == expansions(d)
            &&& !rules.preserve ==> resuming_markers(d) == 0
            &&& rules.preserve && expansions(d) == 0 ==> leading_markers(d) + resuming_markers(d)
                == expansions(d) + 1
            &&& !rules.preserve ==> leading_markers(d) + resuming_markers(d) == expansions(d) + 1
        },
{
    lemma_resuming_markers_from(rules, table, frame, 0, start(registry));
    match run(rules, table, frame, 0, start(registry)).result {
        Ok(d) => {
            lemma_leading_markers(d);
        },
        Err(_) => {},
    }
}

/// One list of names goes on where another ends.
pub open spec fn extends(shorter: Seq<Seq<char>>, longer: Seq<Seq<char>>) -> bool {
    &&& shorter.len() <= longer.len()
    &&& forall|k: int| 0 <= k < shorter.len() ==> longer[k] == shorter[k]
}

/// A name that a list holds keeps its place in every list that goes on from
/// there.
pub proof fn lemma_place_is_kept(shorter: Seq<Seq<char>>, longer: Seq<Seq<char>>, name: Seq<char>)
    requires
        extends(shorter, longer),
        known(shorter, name),
    ensures
        known(longer, name),
        position(longer, name) == position(shorter, name),
{
    lemma_position_from(shorter, name, 0);
    lemma_position_from(longer, name, 0);
    let p = position(shorter, name);
    let q = position(longer, name);
    assert(longer[p] == shorter[p]);
    if q < p {
        assert(longer[q] == shorter[q]);
    }
}

/// The registry only grows: an expansion, failed or not, leaves every name
/// at its place, and no name twice where none stood twice.
pub proof fn lemma_registry_grows(
    rules: Rules,
    table: Seq<File>,
    frame: Frame,
    i: int,
    st: Progress,
)
    requires
        0 <= i <= frame.lines.len(),
    ensures
        extends(st.registry, run(rules, table, frame, i, st).registry),
        distinct(st.registry) ==> distinct(run(rules, table, frame, i, st).registry),
    decreases remaining(table, frame.stack), frame.lines.len() - i,
{
    if i < frame.lines.len() {
        match step(rules, table, frame, i, st) {
            Step::Next(next) => {
                lemma_registry_grows(rules, table, frame, i + 1, next);
            },
            Step::Stop(_) => {},
            Step::Splice(at) => {
                let target = frame.lines[i].target->0;
                let registry = with_name(at.registry, target);
                lemma_with_name(at.registry, target);
                let inner = inner_frame(table, frame, i, at, registry);
                crate::expand::lemma_descent(table, frame.stack, target);
                lemma_registry_grows(rules, table, inner, 0, start(registry));
                let sub = run(rules, table, inner, 0, start(registry));
                match sub.result {
                    Err(_) => {},
                    Ok(document) => {
                        let next = resume(rules, frame, i, at, sub.registry, document);
                        lemma_registry_grows(rules, table, frame, i + 1, next);
                    },
                }
            },
        }
    }
}

/// Every spliced document in `d`, at any depth, has the id that the
/// registry holds for the name of its file.
pub open spec fn ids_agree(registry: Seq<Seq<char>>, d: Document) -> bool
    decreases d,
{
    forall|k: int| 0 <= k < d.body.len() ==> id_agrees(registry, #[trigger] d.body[k])
}

/// A piece that is a spliced document has the id that the registry holds
/// for its file, and so has every document inside it.
pub open spec fn id_agrees(registry: Seq<Seq<char>>, p: Piece) -> bool
    decreases p,
{
    match p {
        Piece::Nested(d) => {
            &&& known(registry, d.name)
            &&& d.file == id_of(registry, d.name)
            &&& ids_agree(registry, d)
        },
        _ => true,
    }
}

/// Ids that agree with a registry agree with every registry that goes on
/// from there.
proof fn lemma_ids_stay(shorter: Seq<Seq<char>>, longer: Seq<Seq<char>>, d: Document)
    requires
        extends(shorter, longer),
        ids_agree(shorter, d),
    ensures
        ids_agree(longer, d),
    decreases d,
{
    assert forall|k: int| 0 <= k < d.body.len() implies id_agrees(longer, #[trigger] d.body[k]) by {
        lemma_id_stays(shorter, longer, d.body[k]);
    }
}

proof fn lemma_id_stays(shorter: Seq<Seq<char>>, longer: Seq<Seq<char>>, p: Piece)
    requires
        extends(shorter, longer),
        id_agrees(shorter, p),
    ensures
        id_agrees(longer, p),
    decreases p,
{
    match p {
        Piece::Nested(d) => {
            lemma_place_is_kept(shorter, longer, d.name);
            lemma_ids_stay(shorter, longer, d);
        },
        _ => {},
    }
}

/// The ids in some pieces agree with the registry.
pub open spec fn pieces_agree(registry: Seq<Seq<char>>, pieces: Seq<Piece>) -> bool {
    forall|k: int| 0 <= k < pieces.len() ==> id_agrees(registry, #[trigger] pieces[k])
}

proof fn lemma_ids_from(rules: Rules, table: Seq<File>, frame: Frame, i: int, st: Progress)
    requires
        0 <= i <= frame.lines.len(),
        pieces_agree(st.registry, st.pieces),
    ensures
        run(rules, table, frame, i, st).result matches Ok(d) ==> ids_agree(
            run(rules, table, frame, i, st).registry,
            d,
        ),
    decreases remaining(table, frame.stack), frame.lines.len() - i,
{
    if i < frame.lines.len() {
        match step(rules, table, frame, i, st) {
            Step::Next(next) => {
                assert forall|k: int| 0 <= k < next.pieces.len() implies id_agrees(
                    next.registry,
                    #[trigger] next.pieces[k],
                ) by {
                    if k < st.pieces.len() {
                        assert(id_agrees(st.registry, st.pieces[k]));
                    }
                }
                lemma_ids_from(rules, table, frame, i + 1, next);
            },
            Step::Stop(_) => {},
            Step::Splice(at) => {
                let target = frame.lines[i].target->0;
                let registry = with_name(at.registry, target);
                lemma_with_name(at.registry, target);
                let inner = inner_frame(table, frame, i, at, registry);
                crate::expand::lemma_descent(table, frame.stack, target);
                lemma_ids_from(rules, table, inner, 0, start(registry));
                lemma_registry_grows(rules, table, inner, 0, start(registry));
                lemma_shape_from(rules, table, inner, 0, start(registry));
                let sub = run(rules, table, inner, 0, start(registry));
                match sub.result {
                    Err(_) => {},
                    Ok(document) => {
                        let next = resume(rules, frame, i, at, sub.registry, document);
                        lemma_place_is_kept(registry, sub.registry, target);
                        assert forall|k: int| 0 <= k < next.pieces.len() implies id_agrees(
                            next.registry,
                            #[trigger] next.pieces[k],
                        ) by {
                            if k < st.pieces.len() {
                                assert(id_agrees(st.registry, st.pieces[k]));
                                lemma_id_stays(st.registry, sub.registry, st.pieces[k]);
                            }
                        }
                        lemma_ids_from(rules, table, frame, i + 1, next);
                    },
                }
            },
        }
    }
}

/// A document stands somewhere inside another.
pub open spec fn inside(d: Document, x: Document) -> bool
    decreases d,
{
    exists|k: int| 0 <= k < d.body.len() && holds(#[trigger] d.body[k], x)
}

/// A piece is the document, or holds it somewhere inside.
pub open spec fn holds(p: Piece, x: Document) -> bool
    decreases p,
{
    match p {
        Piece::Nested(d) => d == x || inside(d, x),
        _ => false,
    }
}

proof fn lemma_id_of_inside(registry: Seq<Seq<char>>, d: Document, x: Document)
    requires
        ids_agree(registry, d),
        inside(d, x),
    ensures
        x.file == id_of(registry, x.name),
    decreases d,
{
    let k = choose|k: int| 0 <= k < d.body.len() && holds(#[trigger] d.body[k], x);
    assert(id_agrees(registry, d.body[k]));
    match d.body[k] {
        Piece::Nested(e) => {
            if e != x {
                lemma_id_of_inside(registry, e, x);
            }
        },
        _ => {},
    }
}

/// One file, one id. Wherever two documents of files with the same name were
/// spliced into the outcome of an expansion, on one path or on two, they
/// carry the same id: the one that the registry holds for the name.
pub proof fn lemma_same_file_same_id(
    rules: Rules,
    table: Seq<File>,
    frame: Frame,
    registry: Seq<Seq<char>>,
    x: Document,
    y: Document,
)
    requires
        run(rules, table, frame, 0, start(registry)).result matches Ok(d) && inside(d, x)
            && inside(d, y),
        x.name == y.name,
    ensures
        x.file == y.file,
        x.file == id_of(run(rules, table, frame, 0, start(registry)).registry, x.name),
{
    lemma_ids_from(rules, table, frame, 0, start(registry));
    let out = run(rules, table, frame, 0, start(registry));
    lemma_id_of_inside(out.registry, out.result->Ok_0, x);
    lemma_id_of_inside(out.registry, out.result->Ok_0, y);
}

/// The lines of the first file of that name in the table.
pub open spec fn lines_of_file(table: Seq<File>, name: Seq<char>) -> Seq<Line> {
    table[position(file_names(table), name)].lines
}

/// Some line among `lines` is an inclusion directive for `target`.
pub open spec fn asks_for(lines: Seq<Line>, target: Seq<char>) -> bool {
    exists|j: int|
        0 <= j < lines.len() && directive(#[trigger] lines[j]) && lines[j].target == Some(target)
}

/// Some line among `lines` that is neither blank nor inside a comment
/// declares the version.
pub open spec fn declares(lines: Seq<Line>, version: Seq<char>) -> bool {
    exists|j: int|
        0 <= j < lines.len() && !idle(#[trigger] lines[j]) && lines[j].version == Some(version)
}

/// The file named `file` is the one that the frame expands, or one of the
/// table, and its lines are `lines`.
pub open spec fn is_file(table: Seq<File>, frame: Frame, file: Seq<char>, lines: Seq<Line>) -> bool {
    ||| file == frame.name && lines == frame.lines
    ||| known(file_names(table), file) && lines == lines_of_file(table, file)
}

/// What a failure says is so. The file that it names is the expanded one or
/// one of the table. A missing file is asked for by an inclusion directive of
/// that file, and the table does not hold it; a file in a cycle is asked for
/// by one, and the table holds it; a version in conflict is declared by a line
/// of that file, and differs from the expected one. An expansion never fails
/// for the patterns' sake.
pub open spec fn genuine(table: Seq<File>, frame: Frame, failure: Failure) -> bool {
    match failure {
        Failure::Cycle { target, file } => known(file_names(table), target) && exists|
            lines: Seq<Line>,
        |
            #[trigger] is_file(table, frame, file, lines) && asks_for(lines, target),
        Failure::Missing { file, target } => !known(file_names(table), target) && exists|
            lines: Seq<Line>,
        |
            #[trigger] is_file(table, frame, file, lines) && asks_for(lines, target),
        Failure::Version { file, found, expected } => found != expected && exists|
            lines: Seq<Line>,
        |
            #[trigger] is_file(table, frame, file, lines) && declares(lines, found),
        Failure::Pattern => false,
    }
}

/// What is genuine of the expansion of a spliced file is genuine of the
/// expansion around it.
proof fn lemma_genuine_goes_up(table: Seq<File>, frame: Frame, inner: Frame, failure: Failure)
    requires
        known(file_names(table), inner.name),
        inner.lines == lines_of_file(table, inner.name),
        genuine(table, inner, failure),
    ensures
        genuine(table, frame, failure),
{
    match failure {
        Failure::Cycle { target, file } => {
            let lines = choose|lines: Seq<Line>|
                #[trigger] is_file(table, inner, file, lines) && asks_for(lines, target);
            assert(is_file(table, frame, file, lines));
        },
        Failure::Missing { file, target } => {
            let lines = choose|lines: Seq<Line>|
                #[trigger] is_file(table, inner, file, lines) && asks_for(lines, target);
            assert(is_file(table, frame, file, lines));
        },
        Failure::Version { file, found, expected } => {
            let lines = choose|lines: Seq<Line>|
                #[trigger] is_file(table, inner, file, lines) && declares(lines, found);
            assert(is_file(table, frame, file, lines));
        },
        Failure::Pattern => {},
    }
}

/// Every failure is genuine: what an expansion reports is so, of the file
/// that it names.
pub proof fn lemma_failures_are_genuine(
    rules: Rules,
    table: Seq<File>,
    frame: Frame,
    i: int,
    st: Progress,
)
    requires
        0 <= i <= frame.lines.len(),
    ensures
        run(rules, table, frame, i, st).result matches Err(failure) ==> genuine(
            table,
            frame,
            failure,
        ),
    decreases remaining(table, frame.stack), frame.lines.len() - i,
{
    if i < frame.lines.len() {
        let line = frame.lines[i];
        match step(rules, table, frame, i, st) {
            Step::Next(next) => {
                lemma_failures_are_genuine(rules, table, frame, i + 1, next);
            },
            Step::Stop(failure) => {
                assert(is_file(table, frame, frame.name, frame.lines));
                match failure {
                    Failure::Version { file, found, expected } => {
                        assert(!idle(frame.lines[i]) && frame.lines[i].version == Some(found));
                        assert(declares(frame.lines, found));
                    },
                    Failure::Cycle { target, file } => {
                        assert(directive(frame.lines[i]) && frame.lines[i].target == Some(target));
                        assert(asks_for(frame.lines, target));
                    },
                    Failure::Missing { file, target } => {
                        assert(directive(frame.lines[i]) && frame.lines[i].target == Some(target));
                        assert(asks_for(frame.lines, target));
                    },
                    Failure::Pattern => {},
                }
            },
            Step::Splice(at) => {
                let target = line.target->0;
                let registry = with_name(at.registry, target);
                let inner = inner_frame(table, frame, i, at, registry);
                crate::expand::lemma_descent(table, frame.stack, target);
                lemma_failures_are_genuine(rules, table, inner, 0, start(registry));
                let sub = run(rules, table, inner, 0, start(registry));
                match sub.result {
                    Err(failure) => {
                        lemma_genuine_goes_up(table, frame, inner, failure);
                    },
                    Ok(document) => {
                        let next = resume(rules, frame, i, at, sub.registry, document);
                        lemma_failures_are_genuine(rules, table, frame, i + 1, next);
                    },
                }
            },
        }
    }
}

/// A line that the version state passes over: inside a comment, or blank.
pub open spec fn idle(line: Line) -> bool {
    line.swallowed || blank(line.code)
}

/// An included file whose first line that counts declares another version
/// than the including file fails with that conflict, whatever else it holds.
/// Here `k` is that line, and the lines from `i` up to it are idle.
pub proof fn lemma_version_conflict(
    rules: Rules,
    table: Seq<File>,
    frame: Frame,
    i: int,
    k: int,
    st: Progress,
)
    requires
        0 <= i <= k < frame.lines.len(),
        !st.started,
        forall|j: int| i <= j < k ==> idle(#[trigger] frame.lines[j]),
        !idle(frame.lines[k]),
        frame.lines[k].version is Some,
        frame.inherited is Some,
        frame.lines[k].version->0 != frame.inherited->0,
    ensures
        run(rules, table, frame, i, st) == (Outcome {
            registry: st.registry,
            result: Err(
                Failure::Version {
                    file: frame.name,
                    found: frame.lines[k].version->0,
                    expected: frame.inherited->0,
                },
            ),
        }),
    decreases k - i,
{
    if i < k {
        assert(idle(frame.lines[i]));
        match step(rules, table, frame, i, st) {
            Step::Next(next) => {
                lemma_version_conflict(rules, table, frame, i + 1, k, next);
            },
            _ => {},
        }
    }
}

/// A line that asks for a file, and is no version directive besides.
pub open spec fn asking(line: Line) -> bool {
    directive(line) && line.version is None
}

/// An inclusion directive that names a file on the stack stops the expansion
/// with a cycle error that names the file and the one that asked for it.
pub proof fn lemma_cycle_is_reported(
    rules: Rules,
    table: Seq<File>,
    frame: Frame,
    i: int,
    st: Progress,
)
    requires
        0 <= i < frame.lines.len(),
        asking(frame.lines[i]),
        known(file_names(table), frame.lines[i].target->0),
        known(frame.stack, frame.lines[i].target->0),
    ensures
        run(rules, table, frame, i, st) == (Outcome {
            registry: st.registry,
            result: Err(Failure::Cycle { target: frame.lines[i].target->0, file: frame.name }),
        }),
{
}

/// An inclusion directive that names a file that the table does not hold
/// stops the expansion with a missing-include error that names both.
pub proof fn lemma_missing_is_reported(
    rules: Rules,
    table: Seq<File>,
    frame: Frame,
    i: int,
    st: Progress,
)
    requires
        0 <= i < frame.lines.len(),
        asking(frame.lines[i]),
        !known(file_names(table), frame.lines[i].target->0),
    ensures
        run(rules, table, frame, i, st) == (Outcome {
            registry: st.registry,
            result: Err(Failure::Missing { file: frame.name, target: frame.lines[i].target->0 }),
        }),
{
}

/// The failure of a spliced file is the failure of the whole.
pub proof fn lemma_failure_goes_up(
    rules: Rules,
    table: Seq<File>,
    frame: Frame,
    i: int,
    st: Progress,
)
    requires
        0 <= i < frame.lines.len(),
        step(rules, table, frame, i, st) is Splice,
    ensures
        ({
            let at = step(rules, table, frame, i, st)->Splice_0;
            let registry = with_name(at.registry, frame.lines[i].target->0);
            let inner = run(
                rules,
                table,
                inner_frame(table, frame, i, at, registry),
                0,
                start(registry),
            );
            inner.result is Err ==> run(rules, table, frame, i, st) == inner
        }),
{
}

/// Two states in which the same lines are taken the same way.
pub open spec fn alike(a: Progress, b: Progress) -> bool {
    a.started == b.started && (a.started ==> a.version == b.version)
}

/// Two frames of the same file on the same path.
pub open spec fn same_file(a: Frame, b: Frame) -> bool {
    a.name == b.name && a.lines == b.lines && a.stack == b.stack && a.inherited == b.inherited
}

/// Two outcomes end the same way: both with a document, or both with the
/// same failure.
pub open spec fn same_end(a: Outcome, b: Outcome) -> bool {
    match (a.result, b.result) {
        (Ok(_), Ok(_)) => true,
        (Err(x), Err(y)) => x == y,
        _ => false,
    }
}

/// Whether an expansion succeeds does not hang on the ids given before: what
/// was spliced elsewhere, and so stands in the registry, is no obstacle to
/// splicing it again. Only the path counts.
pub proof fn lemma_ids_do_not_decide(
    rules: Rules,
    table: Seq<File>,
    fa: Frame,
    fb: Frame,
    i: int,
    sa: Progress,
    sb: Progress,
)
    requires
        0 <= i <= fa.lines.len(),
        same_file(fa, fb),
        alike(sa, sb),
    ensures
        same_end(run(rules, table, fa, i, sa), run(rules, table, fb, i, sb)),
    decreases remaining(table, fa.stack), fa.lines.len() - i,
{
    if i < fa.lines.len() {
        match step(rules, table, fa, i, sa) {
            Step::Next(na) => {
                let nb = step(rules, table, fb, i, sb)->Next_0;
                lemma_ids_do_not_decide(rules, table, fa, fb, i + 1, na, nb);
            },
            Step::Stop(_) => {},
            Step::Splice(aa) => {
                let ab = step(rules, table, fb, i, sb)->Splice_0;
                let target = fa.lines[i].target->0;
                let ra = with_name(aa.registry, target);
                let rb = with_name(ab.registry, target);
                let ia = inner_frame(table, fa, i, aa, ra);
                let ib = inner_frame(table, fb, i, ab, rb);
                crate::expand::lemma_descent(table, fa.stack, target);
                lemma_ids_do_not_decide(rules, table, ia, ib, 0, start(ra), start(rb));
                let xa = run(rules, table, ia, 0, start(ra));
                let xb = run(rules, table, ib, 0, start(rb));
                match (xa.result, xb.result) {
                    (Ok(da), Ok(db)) => {
                        lemma_ids_do_not_decide(
                            rules,
                            table,
                            fa,
                            fb,
                            i + 1,
                            resume(rules, fa, i, aa, xa.registry, da),
                            resume(rules, fb, i, ab, xb.registry, db),
                        );
                    },
                    _ => {},
                }
            },
        }
    }
}

/// A line of plain code: outside comments, not blank, no directive.
pub open spec fn plain(line: Line) -> bool {
    !line.swallowed && !blank(line.code) && line.version is None && line.target is None
}

/// The plain lines among the first `n` lines, in their order.
pub open spec fn plain_lines(lines: Seq<Line>, n: int) -> Seq<Line>
    decreases n,
{
    if n <= 0 || n > lines.len() {
        Seq::empty()
    } else if plain(lines[n - 1]) {
        plain_lines(lines, n - 1).push(lines[n - 1])
    } else {
        plain_lines(lines, n - 1)
    }
}

/// The plain lines that some pieces hold without their comments, in their
/// order; what was spliced in is left out.
pub open spec fn plain_code(pieces: Seq<Piece>) -> Seq<Line>
    decreases pieces.len(),
{
    if pieces.len() == 0 {
        Seq::empty()
    } else {
        match pieces.last() {
            Piece::Code(line) => if plain(line) {
                plain_code(pieces.drop_last()).push(line)
            } else {
                plain_code(pieces.drop_last())
            },
            _ => plain_code(pieces.drop_last()),
        }
    }
}

proof fn lemma_plain_code_push(pieces: Seq<Piece>, p: Piece)
    ensures
        plain_code(pieces.push(p)) == (match p {
            Piece::Code(line) => if plain(line) {
                plain_code(pieces).push(line)
            } else {
                plain_code(pieces)
            },
            _ => plain_code(pieces),
        }),
{
    assert(pieces.push(p).drop_last() == pieces);
}

proof fn lemma_plain_code_from(
    rules: Rules,
    table: Seq<File>,
    frame: Frame,
    i: int,
    st: Progress,
)
    requires
        0 <= i <= frame.lines.len(),
        !rules.preserve,
        plain_code(st.pieces) == plain_lines(frame.lines, i),
    ensures
        run(rules, table, frame, i, st).result matches Ok(d) ==> plain_code(d.body) == plain_lines(
            frame.lines,
            frame.lines.len() as int,
        ),
    decreases remaining(table, frame.stack), frame.lines.len() - i,
{
    if i < frame.lines.len() {
        match step(rules, table, frame, i, st) {
            Step::Next(next) => {
                if next.pieces != st.pieces {
                    let p = next.pieces.last();
                    assert(next.pieces == st.pieces.push(p));
                    lemma_plain_code_push(st.pieces, p);
                }
                lemma_plain_code_from(rules, table, frame, i + 1, next);
            },
            Step::Stop(_) => {},
            Step::Splice(at) => {
                let target = frame.lines[i].target->0;
                let registry = with_name(at.registry, target);
                let inner = inner_frame(table, frame, i, at, registry);
                let sub = run(rules, table, inner, 0, start(registry));
                match sub.result {
                    Err(_) => {},
                    Ok(document) => {
                        let next = resume(rules, frame, i, at, sub.registry, document);
                        lemma_plain_code_push(at.pieces, Piece::Nested(document));
                        lemma_plain_code_from(rules, table, frame, i + 1, next);
                    },
                }
            },
        }
    }
}

/// Where lines are not preserved, a document holds the plain code of its
/// file whole and in the order of the source: every line that is outside
/// comments, not blank and no directive, without its comments.
pub proof fn lemma_plain_code_is_kept(
    rules: Rules,
    table: Seq<File>,
    frame: Frame,
    registry: Seq<Seq<char>>,
)
    requires
        !rules.preserve,
    ensures
        run(rules, table, frame, 0, start(registry)).result matches Ok(d) ==> plain_code(d.body)
            == plain_lines(frame.lines, frame.lines.len() as int),
{
    lemma_plain_code_from(rules, table, frame, 0, start(registry));
}

/// No file is spliced into itself. In a well-shaped document below `path`,
/// a document `x` that stands somewhere inside is of a file that is not on
/// the path, and holds no document of its own file inside.
pub proof fn lemma_nothing_inside_itself(
    rules: Rules,
    table: Seq<File>,
    path: Seq<Seq<char>>,
    d: Document,
    x: Document,
    y: Document,
)
    requires
        shaped(rules, table, path, d),
        inside(d, x),
    ensures
        !known(path, x.name),
        known(file_names(table), x.name),
        x.version == d.version,
        inside(x, y) ==> y.name != x.name,
    decreases d,
{
    let k = choose|k: int| 0 <= k < d.body.len() && holds(#[trigger] d.body[k], x);
    assert(piece_shaped(rules, table, path, Some(d.version), d.file, d.body[k]));
    match d.body[k] {
        Piece::Nested(e) => {
            if e == x {
                if inside(x, y) {
                    lemma_nothing_inside_itself(rules, table, path.push(x.name), x, y, y);
                    lemma_known(path.push(x.name), x.name);
                    assert(path.push(x.name)[path.len() as int] == x.name);
                }
            } else {
                lemma_nothing_inside_itself(rules, table, path.push(e.name), e, x, y);
                lemma_known(path.push(e.name), x.name);
                lemma_known(path, x.name);
                if path.contains(x.name) {
                    let j = choose|j: int| 0 <= j < path.len() && path[j] == x.name;
                    assert(path.push(e.name)[j] == x.name);
                }
            }
        },
        _ => {},
    }
}

/// Ids and names stand for each other: in a registry without repetition the
/// name with the id of a known name is that name, and the id of the name
/// with a given id is that id.
pub proof fn lemma_ids_and_names(registry: Seq<Seq<char>>, name: Seq<char>, id: nat)
    requires
        distinct(registry),
    ensures
        known(registry, name) ==> crate::registry::name_of_id(registry, id_of(registry, name))
            == Some(name),
        crate::registry::name_of_id(registry, id) is Some ==> id_of(
            registry,
            crate::registry::name_of_id(registry, id)->0,
        ) == id,
        crate::registry::name_of_id(registry, 0) is None,
{
    lemma_position_from(registry, name, 0);
    if 1 <= id <= registry.len() {
        crate::registry::lemma_position_of_entry(registry, id - 1);
    }
}

/// A document holds nothing but code: it is one without preserved lines,
/// its version holds no line feed, and its pieces are lines of code that are
/// not blank and hold neither a comment nor a line feed, and spliced documents
/// of the same kind.
pub open spec fn tidy(d: Document) -> bool
    decreases d,
{
    &&& !d.preserved
    &&& flat(d.version)
    &&& forall|k: int| 0 <= k < d.body.len() ==> tidy_piece(#[trigger] d.body[k])
}

/// A piece is a line of code that is not blank and holds neither a comment
/// nor a line feed, or a tidy document.
pub open spec fn tidy_piece(p: Piece) -> bool
    decreases p,
{
    match p {
        Piece::Code(line) => !blank(line.code) && comment_free(line.code) && flat(line.code),
        Piece::Nested(d) => tidy(d),
        _ => false,
    }
}

/// The lines of every file of the table are clean.
pub open spec fn clean_table(table: Seq<File>) -> bool {
    forall|k: int| 0 <= k < table.len() ==> clean((#[trigger] table[k]).lines)
}

/// The versions that an expansion starts from hold no line feed.
pub open spec fn flat_versions(rules: Rules, frame: Frame) -> bool {
    &&& flat(rules.default_version)
    &&& frame.inherited is Some ==> flat(frame.inherited->0)
}

proof fn lemma_tidy_from(rules: Rules, table: Seq<File>, frame: Frame, i: int, st: Progress)
    requires
        0 <= i <= frame.lines.len(),
        !rules.preserve,
        clean(frame.lines),
        clean_table(table),
        flat_versions(rules, frame),
        st.started ==> flat(st.version),
        forall|k: int| 0 <= k < st.pieces.len() ==> tidy_piece(#[trigger] st.pieces[k]),
    ensures
        run(rules, table, frame, i, st).result matches Ok(d) ==> tidy(d),
    decreases remaining(table, frame.stack), frame.lines.len() - i,
{
    if i < frame.lines.len() {
        assert(clean_line(frame.lines[i]));
        match step(rules, table, frame, i, st) {
            Step::Next(next) => {
                assert forall|k: int| 0 <= k < next.pieces.len() implies tidy_piece(
                    #[trigger] next.pieces[k],
                ) by {
                    if k < st.pieces.len() {
                        assert(tidy_piece(st.pieces[k]));
                    }
                }
                lemma_tidy_from(rules, table, frame, i + 1, next);
            },
            Step::Stop(_) => {},
            Step::Splice(at) => {
                let target = frame.lines[i].target->0;
                let registry = with_name(at.registry, target);
                let inner = inner_frame(table, frame, i, at, registry);
                crate::expand::lemma_descent(table, frame.stack, target);
                lemma_position_from(file_names(table), target, 0);
                assert(clean(table[position(file_names(table), target)].lines));
                lemma_tidy_from(rules, table, inner, 0, start(registry));
                let sub = run(rules, table, inner, 0, start(registry));
                match sub.result {
                    Err(_) => {},
                    Ok(document) => {
                        let next = resume(rules, frame, i, at, sub.registry, document);
                        assert forall|k: int| 0 <= k < next.pieces.len() implies tidy_piece(
                            #[trigger] next.pieces[k],
                        ) by {
                            if k < st.pieces.len() {
                                assert(tidy_piece(st.pieces[k]));
                            }
                        }
                        lemma_tidy_from(rules, table, frame, i + 1, next);
                    },
                }
            },
        }
    }
}

/// Where lines are not preserved, the document of clean sources holds
/// nothing but code, at any depth: no blank line, no comment, no filler and no
/// resuming marker.
pub proof fn lemma_discarded_output_is_tidy(
    rules: Rules,
    table: Seq<File>,
    frame: Frame,
    registry: Seq<Seq<char>>,
)
    requires
        !rules.preserve,
        clean(frame.lines),
        clean_table(table),
        flat_versions(rules, frame),
    ensures
        run(rules, table, frame, 0, start(registry)).result matches Ok(d) ==> tidy(d),
{
    lemma_tidy_from(rules, table, frame, 0, start(registry));
}

/// The heading of a tidy document is two lines or one, neither blank, each
/// with its line feed.
proof fn lemma_heading_text(d: Document)
    requires
        flat(d.version),
    ensures
        ended(heading(d)),
        heading(d).len() > 0,
        no_blank_line(heading(d)),
{
    let mark = seq!['#', 'l', 'i', 'n', 'e', ' '] + decimal(d.first_line) + seq![' '] + decimal(
        d.file,
    );
    lemma_decimal_is_flat(d.first_line);
    lemma_decimal_is_flat(d.file);
    assert(mark[0] == '#');
    assert(flat(mark));
    assert(marker(d.first_line, d.file) =~= mark.push('\n'));
    lemma_lines_of_one(mark);
    lemma_not_blank(mark, 0);
    if d.top {
        let word = seq!['#', 'v', 'e', 'r', 's', 'i', 'o', 'n', ' '] + d.version;
        assert(word[0] == '#');
        assert(flat(word));
        assert(version_line(d.version) =~= word.push('\n'));
        lemma_lines_of_one(word);
        lemma_not_blank(word, 0);
        lemma_lines_of_two(version_line(d.version), marker(d.first_line, d.file), 0);
    } else {
        assert(heading(d) =~= marker(d.first_line, d.file));
    }
}

/// The text of a tidy document holds no blank line, and ends with a line
/// feed or with a character that is no white space.
pub proof fn lemma_tidy_text(d: Document)
    requires
        tidy(d),
    ensures
        no_blank_line(render(d)),
        render(d).len() > 0,
        render(d).last() == '\n' || !white_space(render(d).last()),
    decreases d,
{
    lemma_heading_text(d);
    lemma_tidy_body_text(d.body);
    let body = render_all(d.body);
    if body.len() == 0 {
        assert(trim_end(body) =~= body);
        assert(render(d) =~= heading(d));
    } else {
        lemma_trimmed_lines(body);
        lemma_lines_of_two(heading(d), trim_end(body), 0);
    }
}

proof fn lemma_tidy_body_text(pieces: Seq<Piece>)
    requires
        forall|k: int| 0 <= k < pieces.len() ==> tidy_piece(#[trigger] pieces[k]),
    ensures
        ended(render_all(pieces)),
        no_blank_line(render_all(pieces)),
    decreases pieces,
{
    if pieces.len() > 0 {
        let before = pieces.drop_last();
        assert forall|k: int| 0 <= k < before.len() implies tidy_piece(#[trigger] before[k]) by {
            assert(before[k] == pieces[k]);
        }
        lemma_tidy_body_text(before);
        assert(tidy_piece(pieces.last()));
        lemma_tidy_piece_text(pieces.last());
        lemma_lines_of_two(render_all(before), render_piece(pieces.last()), 0);
    }
}

proof fn lemma_tidy_piece_text(p: Piece)
    requires
        tidy_piece(p),
    ensures
        ended(render_piece(p)),
        render_piece(p).len() > 0,
        no_blank_line(render_piece(p)),
    decreases p,
{
    match p {
        Piece::Code(line) => {
            lemma_lines_of_one(line.code);
            let at = choose|at: int| 0 <= at < line.code.len() && !white_space(
                #[trigger] line.code[at],
            );
            lemma_not_blank(line.code, at);
        },
        Piece::Nested(d) => {
            lemma_tidy_text(d);
            if render(d).last() != '\n' {
                lemma_lines_of_closed(render(d), 0);
            }
        },
        _ => {},
    }
}

/// Without line information the text holds no blank line. Where lines are
/// not preserved, no line of the text that is laid out for the document of
/// clean sources is empty or holds white space alone.
pub proof fn lemma_discarded_text(
    rules: Rules,
    table: Seq<File>,
    frame: Frame,
    registry: Seq<Seq<char>>,
)
    requires
        !rules.preserve,
        clean(frame.lines),
        clean_table(table),
        flat_versions(rules, frame),
    ensures
        run(rules, table, frame, 0, start(registry)).result matches Ok(d) ==> no_blank_line(
            render(d),
        ),
{
    lemma_tidy_from(rules, table, frame, 0, start(registry));
    match run(rules, table, frame, 0, start(registry)).result {
        Ok(d) => {
            lemma_tidy_text(d);
        },
        Err(_) => {},
    }
}

/// No document stands more than `n` documents deep inside the document.
pub open spec fn depth_within(d: Document, n: nat) -> bool
    decreases d,
{
    forall|k: int| 0 <= k < d.body.len() ==> piece_within(#[trigger] d.body[k], n)
}

/// A piece that is a spliced document leaves depth: one for itself, and
/// the rest for what stands inside it.
pub open spec fn piece_within(p: Piece, n: nat) -> bool
    decreases p,
{
    match p {
        Piece::Nested(d) => n > 0 && depth_within(d, (n - 1) as nat),
        _ => true,
    }
}

proof fn lemma_depth_grows(d: Document, m: nat, n: nat)
    requires
        depth_within(d, m),
        m <= n,
    ensures
        depth_within(d, n),
    decreases d,
{
    assert forall|k: int| 0 <= k < d.body.len() implies piece_within(#[trigger] d.body[k], n) by {
        assert(piece_within(d.body[k], m));
        lemma_piece_depth_grows(d.body[k], m, n);
    }
}

proof fn lemma_piece_depth_grows(p: Piece, m: nat, n: nat)
    requires
        piece_within(p, m),
        m <= n,
    ensures
        piece_within(p, n),
    decreases p,
{
    match p {
        Piece::Nested(d) => {
            lemma_depth_grows(d, (m - 1) as nat, (n - 1) as nat);
        },
        _ => {},
    }
}

/// The depth that is left is at most the number of files in the table.
pub proof fn lemma_remaining_is_bounded(table: Seq<File>, stack: Seq<Seq<char>>)
    ensures
        remaining(table, stack) <= table.len(),
{
    let names = file_names(table);
    vstd::seq_lib::seq_to_set_is_finite(names);
    vstd::set_lib::lemma_len_subset(names.to_set().difference(stack.to_set()), names.to_set());
    names.lemma_cardinality_of_set();
}

/// A well-shaped document below `path` is no deeper than the depth that
/// the path leaves: every file on the way down is another file of the table.
pub proof fn lemma_depth_of_shaped(
    rules: Rules,
    table: Seq<File>,
    path: Seq<Seq<char>>,
    d: Document,
)
    requires
        shaped(rules, table, path, d),
    ensures
        depth_within(d, remaining(table, path)),
    decreases d,
{
    assert forall|k: int| 0 <= k < d.body.len() implies piece_within(
        #[trigger] d.body[k],
        remaining(table, path),
    ) by {
        assert(piece_shaped(rules, table, path, Some(d.version), d.file, d.body[k]));
        match d.body[k] {
            Piece::Nested(e) => {
                crate::expand::lemma_descent(table, path, e.name);
                lemma_depth_of_shaped(rules, table, path.push(e.name), e);
                lemma_depth_grows(
                    e,
                    remaining(table, path.push(e.name)),
                    (remaining(table, path) - 1) as nat,
                );
            },
            _ => {},
        }
    }
}

/// Inclusions go no deeper than the table has files: in the document of a
/// source no document stands more than that many documents deep, so that an
/// expansion never has more files in work than the table's files and the
/// source itself.
pub proof fn lemma_depth(rules: Rules, table: Seq<File>, frame: Frame, registry: Seq<Seq<char>>)
    ensures
        run(rules, table, frame, 0, start(registry)).result matches Ok(d) ==> depth_within(
            d,
            table.len(),
        ),
{
    lemma_shape(rules, table, frame, registry);
    match run(rules, table, frame, 0, start(registry)).result {
        Ok(d) => {
            lemma_depth_of_shaped(rules, table, frame.stack, d);
            lemma_remaining_is_bounded(table, frame.stack);
            lemma_depth_grows(d, remaining(table, frame.stack), table.len());
        },
        Err(_) => {},
    }
}

} // verus!
