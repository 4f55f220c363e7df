//! The order of reading: an expansion reports the first problem that it
//! comes to. Where it comes down a way through the files to a line, and the
//! expansion from that line fails, that failure is the failure of the whole.

use crate::chains::{declared, first_counting, lemma_first_counting};
use crate::expand::{inner_frame, resume, run, start, step, Frame, Progress, Rules, Step};
use crate::laws::{asking, lemma_version_conflict, lines_of_file};
use crate::registry::{known, with_name};
use crate::scanned::{file_names, Failure, File};
use vstd::prelude::*;

verus! {

/// The state behind line `i`, if the line does not fail: what `step` says,
/// and at a splice the state behind the document of the included file, if
/// its expansion succeeds.
pub open spec fn advance(rules: Rules, table: Seq<File>, frame: Frame, i: int, st: Progress) -> Option<
    Progress,
> {
    match step(rules, table, frame, i, st) {
        Step::Next(next) => Some(next),
        Step::Stop(_) => None,
        Step::Splice(at) => {
            let registry = with_name(at.registry, frame.lines[i].target->0);
            let inner = run(
                rules,
                table,
                inner_frame(table, frame, i, at, registry),
                0,
                start(registry),
            );
            match inner.result {
                Ok(document) => Some(resume(rules, frame, i, at, inner.registry, document)),
                Err(_) => None,
            }
        },
    }
}

/// The state in which an expansion that starts in the state `first` comes
/// to line `i` of the frame, if it comes there: if none of the lines before
/// fails.
pub open spec fn progress_at(
    rules: Rules,
    table: Seq<File>,
    frame: Frame,
    i: int,
    first: Progress,
) -> Option<Progress>
    decreases i,
{
    if i <= 0 {
        Some(first)
    } else if i > frame.lines.len() {
        None
    } else {
        match progress_at(rules, table, frame, i - 1, first) {
            Some(st) => advance(rules, table, frame, i - 1, st),
            None => None,
        }
    }
}

/// An expansion that comes to a line goes on from there: its outcome is the
/// outcome of the expansion from that line on, in the state reached.
pub proof fn lemma_reached(rules: Rules, table: Seq<File>, frame: Frame, i: int, first: Progress)
    requires
        0 <= i <= frame.lines.len(),
        progress_at(rules, table, frame, i, first) is Some,
    ensures
        run(rules, table, frame, 0, first) == run(
            rules,
            table,
            frame,
            i,
            progress_at(rules, table, frame, i, first)->0,
        ),
    decreases i,
{
    if i > 0 {
        lemma_reached(rules, table, frame, i - 1, first);
    }
}

/// A place in an expansion: the file that is read, and the state in which
/// one of its lines is come to.
pub struct Place {
    pub file: Frame,
    pub state: Progress,
}

/// The frame and the state at the end of a way down through the files.
/// The way is given by lines: the first is a line of the frame, each next one
/// a line of the file that the line before asks for. The expansion comes down
/// the way if it comes to each of these lines, and splices at each but the
/// last.
pub open spec fn end_of(
    rules: Rules,
    table: Seq<File>,
    frame: Frame,
    first: Progress,
    way: Seq<int>,
) -> Option<Place>
    decreases way.len(),
{
    if way.len() == 0 || way[0] < 0 || way[0] >= frame.lines.len() {
        None
    } else {
        match progress_at(rules, table, frame, way[0], first) {
            None => None,
            Some(st) => if way.len() == 1 {
                Some(Place { file: frame, state: st })
            } else {
                match step(rules, table, frame, way[0], st) {
                    Step::Splice(at) => {
                        let registry = with_name(at.registry, frame.lines[way[0]].target->0);
                        end_of(
                            rules,
                            table,
                            inner_frame(table, frame, way[0], at, registry),
                            start(registry),
                            way.skip(1),
                        )
                    },
                    _ => None,
                }
            },
        }
    }
}

/// The last line of a way is a line of the file at its end.
pub proof fn lemma_end_of(
    rules: Rules,
    table: Seq<File>,
    frame: Frame,
    first: Progress,
    way: Seq<int>,
)
    requires
        end_of(rules, table, frame, first, way) is Some,
    ensures
        way.len() >= 1,
        0 <= way.last() < end_of(rules, table, frame, first, way)->0.file.lines.len(),
    decreases way.len(),
{
    if way.len() > 1 {
        let st = progress_at(rules, table, frame, way[0], first)->0;
        match step(rules, table, frame, way[0], st) {
            Step::Splice(at) => {
                let registry = with_name(at.registry, frame.lines[way[0]].target->0);
                lemma_end_of(
                    rules,
                    table,
                    inner_frame(table, frame, way[0], at, registry),
                    start(registry),
                    way.skip(1),
                );
                assert(way.skip(1).last() == way.last());
            },
            _ => {},
        }
    }
}

/// The first problem is the one reported. Where an expansion comes down a
/// way to a line, and the expansion from that line fails, the whole expansion
/// ends as that one does: with the same failure and the same registry.
pub proof fn lemma_first_problem(
    rules: Rules,
    table: Seq<File>,
    frame: Frame,
    first: Progress,
    way: Seq<int>,
)
    requires
        end_of(rules, table, frame, first, way) is Some,
        ({
            let end = end_of(rules, table, frame, first, way)->0;
            run(rules, table, end.file, way.last(), end.state).result is Err
        }),
    ensures
        ({
            let end = end_of(rules, table, frame, first, way)->0;
            run(rules, table, frame, 0, first) == run(rules, table, end.file, way.last(), end.state)
        }),
    decreases way.len(),
{
    let st = progress_at(rules, table, frame, way[0], first)->0;
    lemma_reached(rules, table, frame, way[0], first);
    if way.len() > 1 {
        match step(rules, table, frame, way[0], st) {
            Step::Splice(at) => {
                let registry = with_name(at.registry, frame.lines[way[0]].target->0);
                let inner = inner_frame(table, frame, way[0], at, registry);
                assert(way.skip(1).last() == way.last());
                lemma_first_problem(rules, table, inner, start(registry), way.skip(1));
            },
            _ => {},
        }
    }
}

/// A missing file is reported where it is the first problem. Where an
/// expansion comes down a way to a line that asks for a name that the table
/// does not hold, it fails with a missing-include error that names the file of
/// that line and the name.
pub proof fn lemma_first_missing_is_reported(
    rules: Rules,
    table: Seq<File>,
    frame: Frame,
    first: Progress,
    way: Seq<int>,
)
    requires
        end_of(rules, table, frame, first, way) is Some,
        ({
            let file = end_of(rules, table, frame, first, way)->0.file;
            &&& asking(file.lines[way.last()])
            &&& !known(file_names(table), file.lines[way.last()].target->0)
        }),
    ensures
        ({
            let file = end_of(rules, table, frame, first, way)->0.file;
            run(rules, table, frame, 0, first).result == Err::<crate::document::Document, Failure>(
                Failure::Missing { file: file.name, target: file.lines[way.last()].target->0 },
            )
        }),
{
    let end = end_of(rules, table, frame, first, way)->0;
    lemma_end_of(rules, table, frame, first, way);
    crate::laws::lemma_missing_is_reported(rules, table, end.file, way.last(), end.state);
    lemma_first_problem(rules, table, frame, first, way);
}

/// A cycle is reported where it is the first problem. Where an expansion
/// comes down a way to a line that asks for a file that is being expanded, it
/// fails with a cycle error that names that file and the file of the line.
pub proof fn lemma_first_cycle_is_reported(
    rules: Rules,
    table: Seq<File>,
    frame: Frame,
    first: Progress,
    way: Seq<int>,
)
    requires
        end_of(rules, table, frame, first, way) is Some,
        ({
            let file = end_of(rules, table, frame, first, way)->0.file;
            &&& asking(file.lines[way.last()])
            &&& known(file_names(table), file.lines[way.last()].target->0)
            &&& known(file.stack, file.lines[way.last()].target->0)
        }),
    ensures
        ({
            let file = end_of(rules, table, frame, first, way)->0.file;
            run(rules, table, frame, 0, first).result == Err::<crate::document::Document, Failure>(
                Failure::Cycle { target: file.lines[way.last()].target->0, file: file.name },
            )
        }),
{
    let end = end_of(rules, table, frame, first, way)->0;
    lemma_end_of(rules, table, frame, first, way);
    crate::laws::lemma_cycle_is_reported(rules, table, end.file, way.last(), end.state);
    lemma_first_problem(rules, table, frame, first, way);
}

/// A version in conflict is reported where it is the first problem. Where
/// an expansion comes down a way to a line that has a file spliced, and that
/// file declares another version than the one in force at the line, it fails
/// with a version error that names the included file, the version it declares
/// and the version in force.
pub proof fn lemma_first_conflict_is_reported(
    rules: Rules,
    table: Seq<File>,
    frame: Frame,
    first: Progress,
    way: Seq<int>,
)
    requires
        end_of(rules, table, frame, first, way) is Some,
        ({
            let end = end_of(rules, table, frame, first, way)->0;
            let included = lines_of_file(table, end.file.lines[way.last()].target->0);
            &&& step(rules, table, end.file, way.last(), end.state) matches Step::Splice(at)
            &&& declared(included) is Some
            &&& declared(included)->0 != at.version
        }),
    ensures
        ({
            let end = end_of(rules, table, frame, first, way)->0;
            let name = end.file.lines[way.last()].target->0;
            run(rules, table, frame, 0, first).result == Err::<crate::document::Document, Failure>(
                Failure::Version {
                    file: name,
                    found: declared(lines_of_file(table, name))->0,
                    expected: step(rules, table, end.file, way.last(), end.state)->Splice_0.version,
                },
            )
        }),
{
    let end = end_of(rules, table, frame, first, way)->0;
    let file = end.file;
    let i = way.last();
    lemma_end_of(rules, table, frame, first, way);
    let at = step(rules, table, file, i, end.state)->Splice_0;
    let registry = with_name(at.registry, file.lines[i].target->0);
    let inner = inner_frame(table, file, i, at, registry);
    lemma_first_counting(inner.lines, 0);
    lemma_version_conflict(rules, table, inner, 0, first_counting(inner.lines, 0), start(registry));
    assert(run(rules, table, file, i, end.state) == run(rules, table, inner, 0, start(registry)));
    lemma_first_problem(rules, table, frame, first, way);
}

} // verus!
