//! What a source reaches, and what follows from what it reaches alone:
//! processing succeeds where no file that the source leads to asks for
//! itself, is missing, or declares another version, whatever else the table
//! holds; and where only one of the three is wrong, that one is reported.

use crate::chains::{
    declared, declared_from, leads, lemma_conflicts_are_genuine, lemma_missing_file_fails,
    lemma_other_version_fails, lemma_self_reference_fails, linked, resolved, wants,
};
use crate::expand::{
    inner_frame, lemma_descent, remaining, resume, run, start, step, Frame, Progress, Rules,
    Step,
};
use crate::laws::{
    asks_for, directive, genuine, lemma_failures_are_genuine, lemma_shape, lines_of_file,
    shaped,
};
use crate::registry::{known, lemma_known, lemma_position_from, position, with_name};
use crate::scanned::{file_names, Failure, File, Line};
use vstd::prelude::*;

verus! {

/// A way from some lines through the table: the lines ask for the first
/// file of the route, and each file of the route is in the table and asks for
/// the next. The last need not be in the table.
pub open spec fn route_from(table: Seq<File>, lines: Seq<Line>, route: Seq<Seq<char>>) -> bool {
    &&& route.len() >= 1
    &&& asks_for(lines, route[0])
    &&& forall|j: int|
        0 <= j < route.len() - 1 ==> known(file_names(table), #[trigger] route[j]) && asks_for(
            lines_of_file(table, route[j]),
            route[j + 1],
        )
}

/// The lines lead to the name: directly, or through files of the table.
pub open spec fn reaches(table: Seq<File>, lines: Seq<Line>, name: Seq<char>) -> bool {
    exists|route: Seq<Seq<char>>| #[trigger] route_from(table, lines, route) && route.last() == name
}

/// No file that the lines lead to asks for itself, directly or through
/// other files.
pub open spec fn acyclic_from(table: Seq<File>, lines: Seq<Line>) -> bool {
    forall|name: Seq<char>|
        #[trigger] reaches(table, lines, name) && known(file_names(table), name) ==> !reaches(
            table,
            lines_of_file(table, name),
            name,
        )
}

/// Every name that the lines lead to is in the table.
pub open spec fn present_from(table: Seq<File>, lines: Seq<Line>) -> bool {
    forall|name: Seq<char>| #[trigger] reaches(table, lines, name) ==> known(file_names(table), name)
}

/// No file that the lines lead to declares another version than `version`.
pub open spec fn agreeing_from(table: Seq<File>, lines: Seq<Line>, version: Seq<char>) -> bool {
    forall|name: Seq<char>|
        #[trigger] reaches(table, lines, name) && declared(lines_of_file(table, name)) is Some
            ==> declared(lines_of_file(table, name))->0 == version
}

/// What lines ask for, they reach.
pub proof fn lemma_reach_first(table: Seq<File>, lines: Seq<Line>, target: Seq<char>)
    requires
        asks_for(lines, target),
    ensures
        reaches(table, lines, target),
{
    let route = seq![target];
    assert(route_from(table, lines, route));
    assert(route.last() == target);
}

/// What a file reaches is reached by the lines that ask for the file.
pub proof fn lemma_reach_step(
    table: Seq<File>,
    lines: Seq<Line>,
    target: Seq<char>,
    name: Seq<char>,
)
    requires
        asks_for(lines, target),
        known(file_names(table), target),
        reaches(table, lines_of_file(table, target), name),
    ensures
        reaches(table, lines, name),
{
    let rest = choose|route: Seq<Seq<char>>|
        #[trigger] route_from(table, lines_of_file(table, target), route) && route.last() == name;
    let route = seq![target] + rest;
    assert forall|j: int| 0 <= j < route.len() - 1 implies known(
        file_names(table),
        #[trigger] route[j],
    ) && asks_for(lines_of_file(table, route[j]), route[j + 1]) by {
        if j == 0 {
            assert(route[1] == rest[0]);
        } else {
            assert(route[j] == rest[j - 1]);
            assert(route[j + 1] == rest[j]);
        }
    }
    assert(route[0] == target);
    assert(route_from(table, lines, route));
    assert(route.last() == rest.last());
}

/// A route of lines that ask for a file and are no version directives is a
/// way through the table.
pub proof fn lemma_route_reaches(table: Seq<File>, lines: Seq<Line>, route: Seq<Seq<char>>)
    requires
        route.len() >= 1,
        wants(lines, route[0]),
        linked(table, route),
    ensures
        route_from(table, lines, route),
        reaches(table, lines, route.last()),
{
    assert forall|j: int| 0 <= j < route.len() - 1 implies known(
        file_names(table),
        #[trigger] route[j],
    ) && asks_for(lines_of_file(table, route[j]), route[j + 1]) by {
        assert(leads(table, route[j], route[j + 1]));
    }
    assert(route_from(table, lines, route));
}

/// The files on the stack are in order: each is in the table and does not
/// reach itself, each reaches whatever the frame's lines reach, and nothing
/// that the frame's lines reach asks for itself.
pub open spec fn path_sound(table: Seq<File>, frame: Frame) -> bool {
    &&& forall|s: int|
        0 <= s < frame.stack.len() ==> known(file_names(table), #[trigger] frame.stack[s])
            && !reaches(table, lines_of_file(table, frame.stack[s]), frame.stack[s])
    &&& forall|s: int, name: Seq<char>|
        0 <= s < frame.stack.len() && #[trigger] reaches(table, frame.lines, name) ==> reaches(
            table,
            lines_of_file(table, #[trigger] frame.stack[s]),
            name,
        )
    &&& acyclic_from(table, frame.lines)
}

/// The version state is in order: the frame resolves to `version` and
/// inherits no other, the version in force is `version`, and no file that the
/// frame's lines reach declares another.
pub open spec fn version_sound(
    rules: Rules,
    table: Seq<File>,
    frame: Frame,
    i: int,
    st: Progress,
    version: Seq<char>,
) -> bool {
    &&& resolved(rules, frame) == version
    &&& frame.inherited is Some ==> frame.inherited->0 == version
    &&& st.started ==> st.version == version
    &&& !st.started ==> declared_from(frame.lines, i) == declared(frame.lines)
    &&& agreeing_from(table, frame.lines, version)
}

proof fn lemma_inner_reach(table: Seq<File>, frame: Frame, i: int, inner: Frame)
    requires
        0 <= i < frame.lines.len(),
        directive(frame.lines[i]),
        known(file_names(table), frame.lines[i].target->0),
        inner.lines == lines_of_file(table, frame.lines[i].target->0),
    ensures
        reaches(table, frame.lines, frame.lines[i].target->0),
        forall|name: Seq<char>| #[trigger]
            reaches(table, inner.lines, name) ==> reaches(table, frame.lines, name),
{
    let target = frame.lines[i].target->0;
    assert(asks_for(frame.lines, target));
    lemma_reach_first(table, frame.lines, target);
    assert forall|name: Seq<char>| #[trigger] reaches(table, inner.lines, name) implies reaches(
        table,
        frame.lines,
        name,
    ) by {
        lemma_reach_step(table, frame.lines, target, name);
    }
}

proof fn lemma_exclusions_from(
    rules: Rules,
    table: Seq<File>,
    frame: Frame,
    i: int,
    st: Progress,
    version: Seq<char>,
)
    requires
        0 <= i <= frame.lines.len(),
    ensures
        path_sound(table, frame) ==> !(run(rules, table, frame, i, st).result matches Err(
            Failure::Cycle { .. },
        )),
        present_from(table, frame.lines) ==> !(run(rules, table, frame, i, st).result matches Err(
            Failure::Missing { .. },
        )),
        version_sound(rules, table, frame, i, st, version) ==> !(run(
            rules,
            table,
            frame,
            i,
            st,
        ).result matches Err(Failure::Version { .. })),
    decreases remaining(table, frame.stack), frame.lines.len() - i,
{
    if i < frame.lines.len() {
        let line = frame.lines[i];
        match step(rules, table, frame, i, st) {
            Step::Next(next) => {
                lemma_exclusions_from(rules, table, frame, i + 1, next, version);
            },
            Step::Stop(failure) => {
                match failure {
                    Failure::Cycle { target, file } => {
                        if path_sound(table, frame) {
                            assert(directive(frame.lines[i]) && frame.lines[i].target == Some(
                                target,
                            ));
                            assert(asks_for(frame.lines, target));
                            lemma_reach_first(table, frame.lines, target);
                            lemma_known(frame.stack, target);
                            lemma_position_from(frame.stack, target, 0);
                            let s = position(frame.stack, target);
                            assert(frame.stack[s] == target);
                            assert(reaches(table, lines_of_file(table, frame.stack[s]), target));
                        }
                    },
                    Failure::Missing { file, target } => {
                        if present_from(table, frame.lines) {
                            assert(directive(frame.lines[i]) && frame.lines[i].target == Some(
                                target,
                            ));
                            assert(asks_for(frame.lines, target));
                            lemma_reach_first(table, frame.lines, target);
                        }
                    },
                    _ => {},
                }
            },
            Step::Splice(at) => {
                let target = line.target->0;
                let registry = with_name(at.registry, target);
                let inner = inner_frame(table, frame, i, at, registry);
                lemma_descent(table, frame.stack, target);
                lemma_inner_reach(table, frame, i, inner);
                if path_sound(table, frame) {
                    assert forall|s: int| 0 <= s < inner.stack.len() implies known(
                        file_names(table),
                        #[trigger] inner.stack[s],
                    ) && !reaches(table, lines_of_file(table, inner.stack[s]), inner.stack[s]) by {
                        if s < frame.stack.len() {
                            assert(inner.stack[s] == frame.stack[s]);
                        }
                    }
                    assert forall|s: int, name: Seq<char>|
                        0 <= s < inner.stack.len() && #[trigger] reaches(
                            table,
                            inner.lines,
                            name,
                        ) implies reaches(
                        table,
                        lines_of_file(table, #[trigger] inner.stack[s]),
                        name,
                    ) by {
                        if s < frame.stack.len() {
                            assert(inner.stack[s] == frame.stack[s]);
                            assert(reaches(table, frame.lines, name));
                        }
                    }
                    assert(path_sound(table, inner));
                }
                if version_sound(rules, table, frame, i, st, version) {
                    assert(at.version == version);
                    assert(version_sound(rules, table, inner, 0, start(registry), version));
                }
                lemma_exclusions_from(rules, table, inner, 0, start(registry), version);
                let sub = run(rules, table, inner, 0, start(registry));
                match sub.result {
                    Err(_) => {},
                    Ok(document) => {
                        let next = resume(rules, frame, i, at, sub.registry, document);
                        lemma_exclusions_from(rules, table, frame, i + 1, next, version);
                    },
                }
            },
        }
    }
}

/// No cycle is reported where there is none: a top-level source that leads
/// to no file that asks for itself never fails with a cycle error.
pub proof fn lemma_no_cycle_without_cycle(
    rules: Rules,
    table: Seq<File>,
    frame: Frame,
    registry: Seq<Seq<char>>,
)
    requires
        frame.stack.len() == 0,
        acyclic_from(table, frame.lines),
    ensures
        !(run(rules, table, frame, 0, start(registry)).result matches Err(Failure::Cycle { .. })),
{
    lemma_exclusions_from(rules, table, frame, 0, start(registry), resolved(rules, frame));
}

/// No file is reported missing where none is: a source that leads only to
/// names of the table never fails with a missing-include error.
pub proof fn lemma_nothing_missing_without_gap(
    rules: Rules,
    table: Seq<File>,
    frame: Frame,
    registry: Seq<Seq<char>>,
)
    requires
        present_from(table, frame.lines),
    ensures
        !(run(rules, table, frame, 0, start(registry)).result matches Err(
            Failure::Missing { .. },
        )),
{
    lemma_exclusions_from(rules, table, frame, 0, start(registry), resolved(rules, frame));
}

/// No version conflict is reported where the versions agree: a top-level
/// source that leads to no file that declares another version than the source
/// resolves to never fails with a version error.
pub proof fn lemma_no_conflict_without_other_version(
    rules: Rules,
    table: Seq<File>,
    frame: Frame,
    registry: Seq<Seq<char>>,
)
    requires
        frame.inherited is None,
        agreeing_from(table, frame.lines, resolved(rules, frame)),
    ensures
        !(run(rules, table, frame, 0, start(registry)).result matches Err(
            Failure::Version { .. },
        )),
{
    lemma_exclusions_from(rules, table, frame, 0, start(registry), resolved(rules, frame));
}

/// Processing a top-level source succeeds where no file that the source
/// leads to asks for itself, is missing, or declares another version than the
/// source resolves to, whatever else the table holds: it ends, and gives a
/// well-shaped document, into which no inclusion directive was copied.
pub proof fn lemma_success(rules: Rules, table: Seq<File>, frame: Frame, registry: Seq<Seq<char>>)
    requires
        frame.stack.len() == 0,
        frame.inherited is None,
        acyclic_from(table, frame.lines),
        present_from(table, frame.lines),
        agreeing_from(table, frame.lines, resolved(rules, frame)),
    ensures
        run(rules, table, frame, 0, start(registry)).result matches Ok(d) && shaped(
            rules,
            table,
            frame.stack,
            d,
        ),
{
    lemma_exclusions_from(rules, table, frame, 0, start(registry), resolved(rules, frame));
    lemma_failures_are_genuine(rules, table, frame, 0, start(registry));
    lemma_shape(rules, table, frame, registry);
}

/// A file that asks for itself is reported as a cycle where nothing else is
/// wrong. If the source leads over a chain of inclusions to a file that asks
/// for a file of the chain, and to no file that is missing or declares another
/// version, processing fails with a cycle error: it names a file of the table
/// and a file with an inclusion directive for it.
pub proof fn lemma_self_reference_is_reported(
    rules: Rules,
    table: Seq<File>,
    frame: Frame,
    registry: Seq<Seq<char>>,
    route: Seq<Seq<char>>,
    back: int,
)
    requires
        0 <= back < route.len(),
        wants(frame.lines, route[0]),
        linked(table, route),
        leads(table, route.last(), route[back]),
        frame.inherited is None,
        present_from(table, frame.lines),
        agreeing_from(table, frame.lines, resolved(rules, frame)),
    ensures
        run(rules, table, frame, 0, start(registry)).result matches Err(failure) && failure
            is Cycle && genuine(table, frame, failure),
{
    lemma_self_reference_fails(rules, table, frame, registry, route, back);
    lemma_exclusions_from(rules, table, frame, 0, start(registry), resolved(rules, frame));
}

/// A missing file is reported as missing where nothing else is wrong. If
/// the source leads over a chain of inclusions to a name that the table does
/// not hold, and to no file that asks for itself or declares another version,
/// processing fails with a missing-include error: it names a name that the
/// table does not hold and a file with an inclusion directive for it.
pub proof fn lemma_missing_file_is_reported(
    rules: Rules,
    table: Seq<File>,
    frame: Frame,
    registry: Seq<Seq<char>>,
    route: Seq<Seq<char>>,
)
    requires
        route.len() >= 1,
        wants(frame.lines, route[0]),
        linked(table, route),
        !known(file_names(table), route.last()),
        frame.stack.len() == 0,
        frame.inherited is None,
        acyclic_from(table, frame.lines),
        agreeing_from(table, frame.lines, resolved(rules, frame)),
    ensures
        run(rules, table, frame, 0, start(registry)).result matches Err(failure) && failure
            is Missing && genuine(table, frame, failure),
{
    lemma_missing_file_fails(rules, table, frame, registry, route);
    lemma_exclusions_from(rules, table, frame, 0, start(registry), resolved(rules, frame));
}

/// Another version is reported as a conflict where nothing else is wrong.
/// If the source leads over a chain of inclusions to a file that declares
/// another version than the source resolves to, and to no file that asks for
/// itself or is missing, processing fails with a version error: it names an
/// included file, the version that the file declares, and the version that
/// the source resolves to.
pub proof fn lemma_other_version_is_reported(
    rules: Rules,
    table: Seq<File>,
    frame: Frame,
    registry: Seq<Seq<char>>,
    route: Seq<Seq<char>>,
)
    requires
        route.len() >= 1,
        wants(frame.lines, route[0]),
        linked(table, route),
        declared(lines_of_file(table, route.last())) is Some,
        declared(lines_of_file(table, route.last()))->0 != resolved(rules, frame),
        frame.stack.len() == 0,
        frame.inherited is None,
        acyclic_from(table, frame.lines),
        present_from(table, frame.lines),
    ensures
        run(rules, table, frame, 0, start(registry)).result matches Err(
            Failure::Version { file, found, expected },
        ) && {
            &&& expected == resolved(rules, frame)
            &&& found != expected
            &&& known(file_names(table), file)
            &&& declared(lines_of_file(table, file)) == Some(found)
        },
{
    lemma_other_version_fails(rules, table, frame, registry, route);
    lemma_conflicts_are_genuine(rules, table, frame, registry);
    lemma_exclusions_from(rules, table, frame, 0, start(registry), resolved(rules, frame));
}

} // verus!
