//! The shape of assembled output: a document is a leading line marker and a
//! body of pieces, and a piece is a source line, a line written in place of
//! one, a marker that resumes the including file, or the document of an
//! included file.

use crate::scanned::Line;
use crate::text::{closed, decimal, trim_end};
use vstd::prelude::*;

verus! {

/// What one expansion wrote, before it is laid out as text.
pub struct Document {
    /// Whether this is the document of a top-level source, which starts with
    /// the version line.
    pub top: bool,
    /// The name of the file that the body was read from.
    pub name: Seq<char>,
    /// The version that governs the tree of inclusions.
    pub version: Seq<char>,
    /// The line number in the leading marker: 2 where a version line was
    /// taken from the source, else 1.
    pub first_line: nat,
    /// The id of the file that the body was read from.
    pub file: nat,
    /// Whether the lines of the source were preserved: with their comments,
    /// and with blank lines in their places.
    pub preserved: bool,
    pub body: Seq<Piece>,
}

/// One piece of the body of a document.
pub enum Piece {
    /// A source line as it was written.
    Raw(Line),
    /// A source line without its comments.
    Code(Line),
    /// A line written in place of one that was taken out: empty, or a comment
    /// opener where a block comment is open.
    Filler(bool),
    /// The marker behind a spliced file: what follows is line `line` of `file`.
    Resume { line: nat, file: nat },
    /// The document of an included file, spliced in.
    Nested(Document),
}

/// The text `#line <line> <file>`, with its line feed.
pub open spec fn marker(line: nat, file: nat) -> Seq<char> {
    seq!['#', 'l', 'i', 'n', 'e', ' '] + decimal(line) + seq![' '] + decimal(file) + seq!['\n']
}

/// The text `#version <version>`, with its line feed.
pub open spec fn version_line(version: Seq<char>) -> Seq<char> {
    seq!['#', 'v', 'e', 'r', 's', 'i', 'o', 'n', ' '] + version + seq!['\n']
}

/// The text `/*`, which opens a block comment again.
pub open spec fn comment_opener() -> Seq<char> {
    seq!['/', '*']
}

/// The text of a filler line.
pub open spec fn filler(open: bool) -> Seq<char> {
    if open {
        comment_opener()
    } else {
        Seq::empty()
    }
}

/// The text before the body: the version line at the top level, then the
/// leading marker.
pub open spec fn heading(d: Document) -> Seq<char> {
    (if d.top {
        version_line(d.version)
    } else {
        Seq::empty()
    }) + marker(d.first_line, d.file)
}

/// The text of a document: its heading, then its body without the white
/// space at the body's end.
pub open spec fn render(d: Document) -> Seq<char>
    decreases d,
{
    heading(d) + trim_end(render_all(d.body))
}

/// The text of some pieces, one behind the other.
pub open spec fn render_all(pieces: Seq<Piece>) -> Seq<char>
    decreases pieces,
{
    if pieces.len() == 0 {
        Seq::empty()
    } else {
        render_all(pieces.drop_last()) + render_piece(pieces.last())
    }
}

/// The text of one piece; each ends with a line feed. A spliced document
/// is followed by a line feed where lines are preserved; where they are not,
/// it gets one only if it does not end with one, as a document without a body
/// does, so that no empty line comes to stand behind its marker.
pub open spec fn render_piece(p: Piece) -> Seq<char>
    decreases p,
{
    match p {
        Piece::Raw(line) => line.raw.push('\n'),
        Piece::Code(line) => line.code.push('\n'),
        Piece::Filler(open) => filler(open).push('\n'),
        Piece::Resume { line, file } => marker(line, file),
        Piece::Nested(d) => if d.preserved {
            render(d).push('\n')
        } else {
            closed(render(d))
        },
    }
}

/// How many files were spliced into a document, at any depth.
pub open spec fn expansions(d: Document) -> nat
    decreases d,
{
    expansions_in(d.body)
}

/// How many files were spliced into some pieces, at any depth.
pub open spec fn expansions_in(pieces: Seq<Piece>) -> nat
    decreases pieces,
{
    if pieces.len() == 0 {
        0
    } else {
        expansions_in(pieces.drop_last()) + (match pieces.last() {
            Piece::Nested(d) => 1 + expansions(d),
            _ => 0,
        })
    }
}

/// How many leading markers a document holds, its own and those of the
/// documents spliced into it.
pub open spec fn leading_markers(d: Document) -> nat
    decreases d,
{
    1 + leading_markers_in(d.body)
}

/// How many leading markers some pieces hold: those of the documents
/// spliced into them.
pub open spec fn leading_markers_in(pieces: Seq<Piece>) -> nat
    decreases pieces,
{
    if pieces.len() == 0 {
        0
    } else {
        leading_markers_in(pieces.drop_last()) + (match pieces.last() {
            Piece::Nested(d) => leading_markers(d),
            _ => 0,
        })
    }
}

/// How many resuming markers a document holds, at any depth.
pub open spec fn resuming_markers(d: Document) -> nat
    decreases d,
{
    resuming_markers_in(d.body)
}

/// How many resuming markers some pieces hold, at any depth.
pub open spec fn resuming_markers_in(pieces: Seq<Piece>) -> nat
    decreases pieces,
{
    if pieces.len() == 0 {
        0
    } else {
        resuming_markers_in(pieces.drop_last()) + (match pieces.last() {
            Piece::Resume { .. } => 1,
            Piece::Nested(d) => resuming_markers(d),
            _ => 0,
        })
    }
}

/// A piece more is its text more.
pub proof fn lemma_render_push(pieces: Seq<Piece>, p: Piece)
    ensures
        render_all(pieces.push(p)) == render_all(pieces) + render_piece(p),
{
    assert(pieces.push(p).drop_last() == pieces);
}

} // verus!
