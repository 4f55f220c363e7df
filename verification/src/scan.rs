//! The scan of a source: its lines, what the comment state makes of each,
//! and which directives they hold.

use crate::comment::{
    code_of, comment_free, lemma_code_is_comment_free, lemma_code_is_flat, opens_comment,
    strip_comments,
};
use crate::pattern::{
    capture, captured, compiles, pattern_accepted, INCLUDE_ANGLE, INCLUDE_QUOTE, VERSION,
};
use crate::scanned::{line_views, Line, ScannedLine};
use crate::text::{
    chars_of, find_pair_from, first_pair, flat, is_flat, lemma_lines_are_flat, lines_of,
    slice_text, split_lines, string_of, texts,
};
use vstd::prelude::*;

verus! {

/// The matcher accepts the three directive patterns.
pub open spec fn patterns_accepted() -> bool {
    &&& pattern_accepted(VERSION@)
    &&& pattern_accepted(INCLUDE_QUOTE@)
    &&& pattern_accepted(INCLUDE_ANGLE@)
}

/// A line that lies wholly inside a block comment.
pub open spec fn swallowed_line(raw: Seq<char>) -> Line {
    Line {
        raw,
        code: Seq::empty(),
        swallowed: true,
        open_after: true,
        version: None,
        target: None,
    }
}

/// The name that a line of code asks for: the quoted form is tried first,
/// then the form in angle brackets.
pub open spec fn target_of(code: Seq<char>) -> Option<Seq<char>> {
    match captured(INCLUDE_QUOTE@, code, 1) {
        Some(name) => Some(name),
        None => captured(INCLUDE_ANGLE@, code, 1),
    }
}

/// The version that a line of code declares: what the version pattern
/// captures, if that holds no line feed. A capture is a part of the line, and
/// a line holds none, so the condition leaves nothing out; it stands here
/// because the matcher's results are named, not stated.
pub open spec fn version_of(code: Seq<char>) -> Option<Seq<char>> {
    match captured(VERSION@, code, 1) {
        Some(version) => if flat(version) {
            Some(version)
        } else {
            None
        },
        None => None,
    }
}

/// What the scan makes of a line, or of the rest of one, that starts
/// outside any block comment: the directives are looked for in its code.
pub open spec fn scan_code(raw: Seq<char>, rest: Seq<char>) -> Line {
    let code = code_of(rest);
    Line {
        raw,
        code,
        swallowed: false,
        open_after: opens_comment(rest),
        version: version_of(code),
        target: target_of(code),
    }
}

/// What the scan makes of one line. `inside` says whether a block comment is
/// open where the line starts: then the line counts from behind the first
/// `*/` on, and is swallowed where it holds none.
pub open spec fn scan_line(inside: bool, raw: Seq<char>) -> Line {
    if inside {
        match first_pair(raw, '*', '/') {
            Some(at) => scan_code(raw, raw.skip(at + 2)),
            None => swallowed_line(raw),
        }
    } else {
        scan_code(raw, raw)
    }
}

/// The code of a scanned line holds no comment.
pub proof fn lemma_scanned_code_is_comment_free(inside: bool, raw: Seq<char>)
    ensures
        comment_free(scan_line(inside, raw).code),
{
    if inside {
        match first_pair(raw, '*', '/') {
            Some(at) => {
                lemma_code_is_comment_free(raw.skip(at + 2), 0);
            },
            None => {},
        }
    } else {
        lemma_code_is_comment_free(raw, 0);
    }
}

/// The scan of the lines from `i` on.
pub open spec fn scan_lines(lines: Seq<Seq<char>>, i: int, inside: bool) -> Seq<Line>
    decreases lines.len() - i,
{
    if i < 0 || i >= lines.len() {
        Seq::empty()
    } else {
        let line = scan_line(inside, lines[i]);
        seq![line] + scan_lines(lines, i + 1, line.open_after)
    }
}

/// The scan of a source: of its lines in turn, from outside any comment.
pub open spec fn scan(source: Seq<char>) -> Seq<Line> {
    scan_lines(lines_of(source), 0, false)
}

/// Tells whether the matcher accepts the patterns of this library.
pub fn patterns_compile() -> (ok: bool)
    ensures
        ok == patterns_accepted(),
{
    compiles(VERSION) && compiles(INCLUDE_QUOTE) && compiles(INCLUDE_ANGLE)
}

fn capture_text(pattern: &str, text: &str) -> (r: Option<Vec<char>>)
    requires
        pattern_accepted(pattern@),
    ensures
        crate::scanned::option_text(r) == captured(pattern@, text@, 1),
{
    match capture(pattern, text, 1) {
        Some(found) => Some(chars_of(found.as_str())),
        None => None,
    }
}

fn scan_rest(raw: Vec<char>, rest: &Vec<char>) -> (r: ScannedLine)
    requires
        patterns_accepted(),
    ensures
        r@ == scan_code(raw@, rest@),
{
    let (code, open_after) = strip_comments(rest);
    let code_text = string_of(&code);
    let version = match capture_text(VERSION, code_text.as_str()) {
        Some(found) => if is_flat(&found) {
            Some(found)
        } else {
            None
        },
        None => None,
    };
    let quoted = capture_text(INCLUDE_QUOTE, code_text.as_str());
    let target = match quoted {
        Some(name) => Some(name),
        None => capture_text(INCLUDE_ANGLE, code_text.as_str()),
    };
    ScannedLine { raw, code, swallowed: false, open_after, version, target }
}

/// Scans one line. `inside` says whether a block comment is open where the
/// line starts.
pub fn scan_one(inside: bool, raw: Vec<char>) -> (r: ScannedLine)
    requires
        patterns_accepted(),
    ensures
        r@ == scan_line(inside, raw@),
{
    if inside {
        match find_pair_from(&raw, '*', '/', 0) {
            Some(at) => {
                let rest = slice_text(&raw, at + 2, raw.len());
                scan_rest(raw, &rest)
            },
            None => ScannedLine {
                raw,
                code: Vec::new(),
                swallowed: true,
                open_after: true,
                version: None,
                target: None,
            },
        }
    } else {
        let rest = slice_text(&raw, 0, raw.len());
        assert(rest@ == raw@);
        scan_rest(raw, &rest)
    }
}

/// Scans a source line by line.
pub fn scan_source(source: &str) -> (r: Vec<ScannedLine>)
    requires
        patterns_accepted(),
    ensures
        line_views(r@) == scan(source@),
{
    let chars = chars_of(source);
    let lines = split_lines(&chars);
    let ghost all = texts(lines@);
    let mut out: Vec<ScannedLine> = Vec::new();
    let mut inside = false;
    let mut i: usize = 0;
    while i < lines.len()
        invariant
            i <= lines.len(),
            patterns_accepted(),
            all == texts(lines@),
            all == lines_of(source@),
            scan(source@) == line_views(out@) + scan_lines(all, i as int, inside),
        decreases lines.len() - i,
    {
        let raw = slice_text(&lines[i], 0, lines[i].len());
        assert(raw@ == all[i as int]);
        let ghost before = line_views(out@);
        let line = scan_one(inside, raw);
        let ghost seen = line@;
        inside = line.open_after;
        out.push(line);
        assert(line_views(out@) == before.push(seen));
        assert(before + (seq![seen] + scan_lines(all, i + 1, seen.open_after)) == before.push(seen)
            + scan_lines(all, i + 1, seen.open_after));
        i += 1;
    }
    assert(scan_lines(all, lines.len() as int, inside) == Seq::<Line>::empty());
    assert(scan(source@) == line_views(out@));
    out
}

/// Every line of a scanned source has code that holds neither a comment
/// nor a line feed, and a version, if it declares one, that holds no line
/// feed.
pub open spec fn clean(lines: Seq<Line>) -> bool {
    forall|j: int|
        0 <= j < lines.len() ==> clean_line(#[trigger] lines[j])
}

/// The code of a line holds neither a comment nor a line feed, and its
/// version no line feed.
pub open spec fn clean_line(line: Line) -> bool {
    &&& comment_free(line.code)
    &&& flat(line.code)
    &&& line.version is Some ==> flat(line.version->0)
}

/// A scanned line is clean where the line as written holds no line feed.
pub proof fn lemma_scanned_line_is_clean(inside: bool, raw: Seq<char>)
    requires
        flat(raw),
    ensures
        clean_line(scan_line(inside, raw)),
{
    lemma_scanned_code_is_comment_free(inside, raw);
    if inside {
        match first_pair(raw, '*', '/') {
            Some(at) => {
                crate::text::lemma_pair_at_or_after(raw, '*', '/', 0);
                let rest = raw.skip(at + 2);
                assert forall|i: int| 0 <= i < rest.len() implies #[trigger] rest[i] != '\n' by {
                    assert(rest[i] == raw[at + 2 + i]);
                }
                lemma_code_is_flat(rest, 0);
            },
            None => {},
        }
    } else {
        lemma_code_is_flat(raw, 0);
    }
}

proof fn lemma_scan_lines_are_clean(lines: Seq<Seq<char>>, i: int, inside: bool)
    requires
        0 <= i,
        forall|k: int| 0 <= k < lines.len() ==> flat(#[trigger] lines[k]),
    ensures
        clean(scan_lines(lines, i, inside)),
    decreases lines.len() - i,
{
    if i < lines.len() {
        let line = scan_line(inside, lines[i]);
        lemma_scanned_line_is_clean(inside, lines[i]);
        lemma_scan_lines_are_clean(lines, i + 1, line.open_after);
        let rest = scan_lines(lines, i + 1, line.open_after);
        assert forall|j: int| 0 <= j < scan_lines(lines, i, inside).len() implies clean_line(
            #[trigger] scan_lines(lines, i, inside)[j],
        ) by {
            if j > 0 {
                assert(scan_lines(lines, i, inside)[j] == rest[j - 1]);
            }
        }
    }
}

/// The scan of a source leaves neither a comment nor a line feed in the
/// code of any line.
pub proof fn lemma_scan_is_clean(source: Seq<char>)
    ensures
        clean(scan(source)),
{
    lemma_lines_are_flat(source, 0);
    lemma_scan_lines_are_clean(lines_of(source), 0, false);
}

} // verus!
