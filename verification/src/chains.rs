//! What holds along chains of inclusions: a source that asks, through any
//! number of files, for a file that asks for itself, that is missing, or that
//! declares another version, is never processed with success.

use crate::document::{Document, Piece};
use crate::expand::{
    base_version, inner_frame, lemma_descent, remaining, resume, run, start, step, Frame,
    Progress, Rules, Step,
};
use crate::laws::{
    asking, genuine, holds, idle, inside, lemma_failures_are_genuine,
    lemma_nothing_inside_itself, lemma_shape, lemma_shape_from, lines_of_file,
};
use crate::registry::{known, with_name};
use crate::scanned::{file_names, Failure, File, Line};
use vstd::prelude::*;

verus! {

/// Some line among `lines` asks for the file `target`.
pub open spec fn wants(lines: Seq<Line>, target: Seq<char>) -> bool {
    exists|j: int|
        0 <= j < lines.len() && asking(#[trigger] lines[j]) && lines[j].target == Some(target)
}

/// The version that the lines from `i` on declare: that of the first line
/// that is neither blank nor inside a comment, where it is a version
/// directive.
pub open spec fn declared_from(lines: Seq<Line>, i: int) -> Option<Seq<char>>
    decreases lines.len() - i,
{
    if i < 0 || i >= lines.len() {
        None
    } else if idle(lines[i]) {
        declared_from(lines, i + 1)
    } else {
        lines[i].version
    }
}

/// The version that a file declares.
pub open spec fn declared(lines: Seq<Line>) -> Option<Seq<char>> {
    declared_from(lines, 0)
}

/// The version of the document of a file: the one it declares, else the
/// inherited or the default one.
pub open spec fn resolved(rules: Rules, frame: Frame) -> Seq<char> {
    match declared(frame.lines) {
        Some(version) => version,
        None => base_version(rules, frame),
    }
}

/// A document mirrors the lines of its file: it has the version that they
/// declare, and for each file that they ask for it holds a document of that
/// file, which mirrors that file's lines.
pub open spec fn mirrors(table: Seq<File>, lines: Seq<Line>, d: Document) -> bool
    decreases d,
{
    &&& declared(lines) is Some ==> d.version == declared(lines)->0
    &&& forall|j: int|
        0 <= j < lines.len() && asking(#[trigger] lines[j]) ==> exists|k: int|
            0 <= k < d.body.len() && mirrors_file(table, lines[j].target->0, #[trigger] d.body[k])
}

/// A piece is a document that mirrors the file of that name.
pub open spec fn mirrors_file(table: Seq<File>, name: Seq<char>, p: Piece) -> bool
    decreases p,
{
    match p {
        Piece::Nested(d) => d.name == name && mirrors(table, lines_of_file(table, name), d),
        _ => false,
    }
}

/// What was written for the lines before `i` mirrors them, and the version
/// in force is the one that the file resolves to.
pub open spec fn mirrored_so_far(
    rules: Rules,
    table: Seq<File>,
    frame: Frame,
    i: int,
    st: Progress,
) -> bool {
    &&& forall|j: int|
        0 <= j < i && asking(#[trigger] frame.lines[j]) ==> exists|k: int|
            0 <= k < st.pieces.len() && mirrors_file(
                table,
                frame.lines[j].target->0,
                #[trigger] st.pieces[k],
            )
    &&& st.started ==> st.version == resolved(rules, frame)
    &&& !st.started ==> declared_from(frame.lines, i) == declared(frame.lines)
}

proof fn lemma_mirrors_from(rules: Rules, table: Seq<File>, frame: Frame, i: int, st: Progress)
    requires
        0 <= i <= frame.lines.len(),
        mirrored_so_far(rules, table, frame, i, st),
    ensures
        run(rules, table, frame, i, st).result matches Ok(d) ==> mirrors(table, frame.lines, d)
            && d.version == resolved(rules, frame),
    decreases remaining(table, frame.stack), frame.lines.len() - i,
{
    if i >= frame.lines.len() {
        let d = crate::expand::finish(rules, frame, st);
        assert forall|j: int| 0 <= j < frame.lines.len() && asking(#[trigger] frame.lines[j]) implies exists|
            k: int,
        |
            0 <= k < d.body.len() && mirrors_file(
                table,
                frame.lines[j].target->0,
                #[trigger] d.body[k],
            ) by {
            let k = choose|k: int|
                0 <= k < st.pieces.len() && mirrors_file(
                    table,
                    frame.lines[j].target->0,
                    #[trigger] st.pieces[k],
                );
            assert(mirrors_file(table, frame.lines[j].target->0, d.body[k]));
        }
    } else {
        match step(rules, table, frame, i, st) {
            Step::Next(next) => {
                assert forall|j: int| 0 <= j < i + 1 && asking(#[trigger] frame.lines[j]) implies exists|
                    k: int,
                |
                    0 <= k < next.pieces.len() && mirrors_file(
                        table,
                        frame.lines[j].target->0,
                        #[trigger] next.pieces[k],
                    ) by {
                    let k = choose|k: int|
                        0 <= k < st.pieces.len() && mirrors_file(
                            table,
                            frame.lines[j].target->0,
                            #[trigger] st.pieces[k],
                        );
                    assert(next.pieces[k] == st.pieces[k]);
                }
                lemma_mirrors_from(rules, table, frame, i + 1, next);
            },
            Step::Stop(_) => {},
            Step::Splice(at) => {
                let target = frame.lines[i].target->0;
                let registry = with_name(at.registry, target);
                let inner = inner_frame(table, frame, i, at, registry);
                lemma_descent(table, frame.stack, target);
                lemma_mirrors_from(rules, table, inner, 0, start(registry));
                lemma_shape_from(rules, table, inner, 0, start(registry));
                let sub = run(rules, table, inner, 0, start(registry));
                match sub.result {
                    Err(_) => {},
                    Ok(document) => {
                        let next = resume(rules, frame, i, at, sub.registry, document);
                        let spliced = st.pieces.len() as int;
                        assert(next.pieces[spliced] == Piece::Nested(document));
                        assert(mirrors_file(table, target, next.pieces[spliced]));
                        assert forall|j: int|
                            0 <= j < i + 1 && asking(#[trigger] frame.lines[j]) implies exists|
                            k: int,
                        |
                            0 <= k < next.pieces.len() && mirrors_file(
                                table,
                                frame.lines[j].target->0,
                                #[trigger] next.pieces[k],
                            ) by {
                            if j < i {
                                let k = choose|k: int|
                                    0 <= k < st.pieces.len() && mirrors_file(
                                        table,
                                        frame.lines[j].target->0,
                                        #[trigger] st.pieces[k],
                                    );
                                assert(next.pieces[k] == st.pieces[k]);
                            }
                        }
                        lemma_mirrors_from(rules, table, frame, i + 1, next);
                    },
                }
            },
        }
    }
}

/// A document that an expansion gives mirrors the lines of its file, and
/// has the version that the file resolves to.
pub proof fn lemma_mirrors(rules: Rules, table: Seq<File>, frame: Frame, registry: Seq<Seq<char>>)
    ensures
        run(rules, table, frame, 0, start(registry)).result matches Ok(d) ==> mirrors(
            table,
            frame.lines,
            d,
        ) && d.version == resolved(rules, frame),
{
    lemma_mirrors_from(rules, table, frame, 0, start(registry));
}

proof fn lemma_piece_is_inside(d: Document, k: int)
    requires
        0 <= k < d.body.len(),
        d.body[k] is Nested,
    ensures
        inside(d, d.body[k]->Nested_0),
{
    assert(holds(d.body[k], d.body[k]->Nested_0));
}

/// What stands inside a document that stands inside another stands inside
/// the other.
pub proof fn lemma_inside_inside(a: Document, b: Document, c: Document)
    requires
        inside(a, b),
        inside(b, c),
    ensures
        inside(a, c),
    decreases a,
{
    let k = choose|k: int| 0 <= k < a.body.len() && holds(#[trigger] a.body[k], b);
    match a.body[k] {
        Piece::Nested(e) => {
            if e != b {
                lemma_inside_inside(e, b, c);
            }
            assert(holds(a.body[k], c));
        },
        _ => {},
    }
}

/// The file `a` of the table asks for `b`.
pub open spec fn leads(table: Seq<File>, a: Seq<char>, b: Seq<char>) -> bool {
    known(file_names(table), a) && wants(lines_of_file(table, a), b)
}

/// A chain of inclusions: each file of the route asks for the next.
pub open spec fn linked(table: Seq<File>, route: Seq<Seq<char>>) -> bool {
    forall|j: int| 0 <= j < route.len() - 1 ==> leads(table, #[trigger] route[j], route[j + 1])
}

/// Along a chain of inclusions the documents stand one inside the other:
/// a document that mirrors the file at `from` holds one that mirrors the file
/// at `to`.
pub proof fn lemma_chain(
    table: Seq<File>,
    x: Document,
    route: Seq<Seq<char>>,
    from: int,
    to: int,
) -> (y: Document)
    requires
        linked(table, route),
        0 <= from <= to < route.len(),
        x.name == route[from],
        mirrors(table, lines_of_file(table, route[from]), x),
    ensures
        y.name == route[to],
        mirrors(table, lines_of_file(table, route[to]), y),
        from == to ==> y == x,
        from < to ==> inside(x, y),
    decreases to - from,
{
    if from == to {
        x
    } else {
        let before = lemma_chain(table, x, route, from, to - 1);
        assert(leads(table, route[to - 1], route[to]));
        let lines = lines_of_file(table, route[to - 1]);
        let j = choose|j: int|
            0 <= j < lines.len() && asking(#[trigger] lines[j]) && lines[j].target == Some(
                route[to],
            );
        let k = choose|k: int|
            0 <= k < before.body.len() && mirrors_file(table, route[to], #[trigger] before.body[k]);
        let y = before.body[k]->Nested_0;
        lemma_piece_is_inside(before, k);
        if from < to - 1 {
            lemma_inside_inside(x, before, y);
        }
        y
    }
}

/// Where processing succeeds, the document holds a document for every file
/// on a chain of inclusions that starts in the source.
pub proof fn lemma_route(
    rules: Rules,
    table: Seq<File>,
    frame: Frame,
    registry: Seq<Seq<char>>,
    route: Seq<Seq<char>>,
    to: int,
) -> (y: Document)
    requires
        run(rules, table, frame, 0, start(registry)).result is Ok,
        0 <= to < route.len(),
        wants(frame.lines, route[0]),
        linked(table, route),
    ensures
        inside(run(rules, table, frame, 0, start(registry)).result->Ok_0, y),
        y.name == route[to],
        mirrors(table, lines_of_file(table, route[to]), y),
{
    let d = run(rules, table, frame, 0, start(registry)).result->Ok_0;
    lemma_mirrors(rules, table, frame, registry);
    let j = choose|j: int|
        0 <= j < frame.lines.len() && asking(#[trigger] frame.lines[j]) && frame.lines[j].target
            == Some(route[0]);
    let k = choose|k: int|
        0 <= k < d.body.len() && mirrors_file(table, route[0], #[trigger] d.body[k]);
    let x = d.body[k]->Nested_0;
    lemma_piece_is_inside(d, k);
    let y = lemma_chain(table, x, route, 0, to);
    if 0 < to {
        lemma_inside_inside(d, x, y);
    }
    y
}

/// What a version conflict says of the file that it names: the file inherits
/// a version and declares another one.
pub open spec fn conflicting(
    table: Seq<File>,
    frame: Frame,
    version: Seq<char>,
    failure: Failure,
) -> bool {
    match failure {
        Failure::Version { file, found, expected } => {
            &&& expected == version
            &&& found != version
            &&& {
                ||| file == frame.name && frame.inherited is Some && declared(frame.lines) == Some(
                    found,
                )
                ||| known(file_names(table), file) && declared(lines_of_file(table, file)) == Some(
                    found,
                )
            }
        },
        _ => true,
    }
}

proof fn lemma_conflicts_from(
    rules: Rules,
    table: Seq<File>,
    frame: Frame,
    i: int,
    st: Progress,
    version: Seq<char>,
)
    requires
        0 <= i <= frame.lines.len(),
        resolved(rules, frame) == version,
        frame.inherited is Some ==> frame.inherited->0 == version,
        st.started ==> st.version == version,
        !st.started ==> declared_from(frame.lines, i) == declared(frame.lines),
    ensures
        run(rules, table, frame, i, st).result matches Err(failure) ==> conflicting(
            table,
            frame,
            version,
            failure,
        ),
    decreases remaining(table, frame.stack), frame.lines.len() - i,
{
    if i < frame.lines.len() {
        match step(rules, table, frame, i, st) {
            Step::Next(next) => {
                lemma_conflicts_from(rules, table, frame, i + 1, next, version);
            },
            Step::Stop(_) => {},
            Step::Splice(at) => {
                let target = frame.lines[i].target->0;
                let registry = with_name(at.registry, target);
                let inner = inner_frame(table, frame, i, at, registry);
                lemma_descent(table, frame.stack, target);
                let sub = run(rules, table, inner, 0, start(registry));
                if declared(inner.lines) is Some && declared(inner.lines)->0 != version {
                    lemma_first_counting(inner.lines, 0);
                    crate::laws::lemma_version_conflict(
                        rules,
                        table,
                        inner,
                        0,
                        first_counting(inner.lines, 0),
                        start(registry),
                    );
                } else {
                    lemma_conflicts_from(rules, table, inner, 0, start(registry), version);
                }
                match sub.result {
                    Err(_) => {},
                    Ok(document) => {
                        let next = resume(rules, frame, i, at, sub.registry, document);
                        lemma_conflicts_from(rules, table, frame, i + 1, next, version);
                    },
                }
            },
        }
    }
}

/// The first line at or after `i` that is neither blank nor inside a
/// comment, or the number of lines where there is none.
pub open spec fn first_counting(lines: Seq<Line>, i: int) -> int
    decreases lines.len() - i,
{
    if i < 0 || i >= lines.len() {
        lines.len() as int
    } else if idle(lines[i]) {
        first_counting(lines, i + 1)
    } else {
        i
    }
}

pub proof fn lemma_first_counting(lines: Seq<Line>, i: int)
    requires
        0 <= i,
    ensures
        i <= first_counting(lines, i) || first_counting(lines, i) == lines.len(),
        forall|j: int| i <= j < first_counting(lines, i) && j < lines.len() ==> idle(
            #[trigger] lines[j],
        ),
        first_counting(lines, i) < lines.len() ==> !idle(lines[first_counting(lines, i)])
            && declared_from(lines, i) == lines[first_counting(lines, i)].version,
        first_counting(lines, i) >= lines.len() ==> declared_from(lines, i) is None,
    decreases lines.len() - i,
{
    if i < lines.len() && idle(lines[i]) {
        lemma_first_counting(lines, i + 1);
    }
}

/// A version conflict is genuine: the file that it names was included, and
/// the first of its lines that counts declares another version than the one
/// that the top-level source resolves to.
pub proof fn lemma_conflicts_are_genuine(
    rules: Rules,
    table: Seq<File>,
    frame: Frame,
    registry: Seq<Seq<char>>,
)
    requires
        frame.inherited is None,
    ensures
        run(rules, table, frame, 0, start(registry)).result matches Err(
            Failure::Version { file, found, expected },
        ) ==> {
            &&& expected == resolved(rules, frame)
            &&& found != expected
            &&& known(file_names(table), file)
            &&& declared(lines_of_file(table, file)) == Some(found)
        },
{
    lemma_conflicts_from(rules, table, frame, 0, start(registry), resolved(rules, frame));
}

/// A file that asks for itself, through any number of files, cannot be
/// processed: where the source leads over a chain of inclusions to a file that
/// asks for a file of the chain, processing fails, and the failure is genuine.
pub proof fn lemma_self_reference_fails(
    rules: Rules,
    table: Seq<File>,
    frame: Frame,
    registry: Seq<Seq<char>>,
    route: Seq<Seq<char>>,
    back: int,
)
    requires
        0 <= back < route.len(),
        wants(frame.lines, route[0]),
        linked(table, route),
        leads(table, route.last(), route[back]),
    ensures
        run(rules, table, frame, 0, start(registry)).result matches Err(failure) && genuine(
            table,
            frame,
            failure,
        ),
{
    lemma_failures_are_genuine(rules, table, frame, 0, start(registry));
    if run(rules, table, frame, 0, start(registry)).result is Ok {
        let d = run(rules, table, frame, 0, start(registry)).result->Ok_0;
        let last = route.len() - 1;
        let x = lemma_route(rules, table, frame, registry, route, back);
        let y = lemma_chain(table, x, route, back, last);
        let lines = lines_of_file(table, route[last]);
        let j = choose|j: int|
            0 <= j < lines.len() && asking(#[trigger] lines[j]) && lines[j].target == Some(
                route[back],
            );
        let k = choose|k: int|
            0 <= k < y.body.len() && mirrors_file(table, route[back], #[trigger] y.body[k]);
        let z = y.body[k]->Nested_0;
        lemma_piece_is_inside(y, k);
        if back < last {
            lemma_inside_inside(x, y, z);
        }
        lemma_shape(rules, table, frame, registry);
        lemma_nothing_inside_itself(rules, table, frame.stack, d, x, z);
    }
}

/// A file that is missing cannot be passed over: where the source leads
/// over a chain of inclusions to a name that the table does not hold,
/// processing fails, and the failure is genuine.
pub proof fn lemma_missing_file_fails(
    rules: Rules,
    table: Seq<File>,
    frame: Frame,
    registry: Seq<Seq<char>>,
    route: Seq<Seq<char>>,
)
    requires
        route.len() >= 1,
        wants(frame.lines, route[0]),
        linked(table, route),
        !known(file_names(table), route.last()),
    ensures
        run(rules, table, frame, 0, start(registry)).result matches Err(failure) && genuine(
            table,
            frame,
            failure,
        ),
{
    lemma_failures_are_genuine(rules, table, frame, 0, start(registry));
    if run(rules, table, frame, 0, start(registry)).result is Ok {
        let d = run(rules, table, frame, 0, start(registry)).result->Ok_0;
        let y = lemma_route(rules, table, frame, registry, route, route.len() - 1);
        lemma_shape(rules, table, frame, registry);
        lemma_nothing_inside_itself(rules, table, frame.stack, d, y, y);
    }
}

/// One version governs the tree. Where the source leads over a chain of
/// inclusions to a file that declares another version than the source
/// resolves to, processing fails, and the failure is genuine.
pub proof fn lemma_other_version_fails(
    rules: Rules,
    table: Seq<File>,
    frame: Frame,
    registry: Seq<Seq<char>>,
    route: Seq<Seq<char>>,
)
    requires
        route.len() >= 1,
        wants(frame.lines, route[0]),
        linked(table, route),
        declared(lines_of_file(table, route.last())) is Some,
        declared(lines_of_file(table, route.last()))->0 != resolved(rules, frame),
    ensures
        run(rules, table, frame, 0, start(registry)).result matches Err(failure) && genuine(
            table,
            frame,
            failure,
        ),
{
    lemma_failures_are_genuine(rules, table, frame, 0, start(registry));
    if run(rules, table, frame, 0, start(registry)).result is Ok {
        let d = run(rules, table, frame, 0, start(registry)).result->Ok_0;
        let y = lemma_route(rules, table, frame, registry, route, route.len() - 1);
        lemma_mirrors(rules, table, frame, registry);
        lemma_shape(rules, table, frame, registry);
        lemma_nothing_inside_itself(rules, table, frame.stack, d, y, y);
    }
}

} // verus!
