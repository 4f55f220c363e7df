//! What a scan knows of each line of a source before any file is spliced
//! in, and the error values of an expansion.

use vstd::prelude::*;
use vstd::string::StringExecFns;

verus! {

/// One line of a source, as the comment scanner and the directive patterns
/// see it.
pub struct Line {
    /// The line as it was written.
    pub raw: Seq<char>,
    /// What is left of it without its comments.
    pub code: Seq<char>,
    /// The whole line lies inside a block comment that does not end on it.
    pub swallowed: bool,
    /// A block comment is open where the line ends.
    pub open_after: bool,
    /// The version that the line declares, where it is a version directive.
    pub version: Option<Seq<char>>,
    /// The name that the line asks for, where it is an inclusion directive.
    pub target: Option<Seq<char>>,
}

/// A named source and its lines: one entry of the table of files that can
/// be spliced in.
pub struct File {
    pub name: Seq<char>,
    pub lines: Seq<Line>,
}

/// Why an expansion stopped.
pub enum Failure {
    /// `file` asks for `target`, which is being expanded already.
    Cycle { target: Seq<char>, file: Seq<char> },
    /// `file` asks for `target`, which the table does not hold.
    Missing { file: Seq<char>, target: Seq<char> },
    /// The included `file` declares the version `found` under a tree that is
    /// governed by `expected`.
    Version { file: Seq<char>, found: Seq<char>, expected: Seq<char> },
    /// The pattern matcher does not accept one of the directive patterns.
    Pattern,
}

/// The characters of a text that may be absent.
pub open spec fn option_text(t: Option<Vec<char>>) -> Option<Seq<char>> {
    match t {
        Some(v) => Some(v@),
        None => None,
    }
}

/// A scanned line, as `Line` describes it.
#[derive(Debug, PartialEq, Eq)]
pub struct ScannedLine {
    pub raw: Vec<char>,
    pub code: Vec<char>,
    pub swallowed: bool,
    pub open_after: bool,
    pub version: Option<Vec<char>>,
    pub target: Option<Vec<char>>,
}

impl View for ScannedLine {
    type V = Line;

    open spec fn view(&self) -> Line {
        Line {
            raw: self.raw@,
            code: self.code@,
            swallowed: self.swallowed,
            open_after: self.open_after,
            version: option_text(self.version),
            target: option_text(self.target),
        }
    }
}

/// The scanned lines as `Line`s.
pub open spec fn line_views(lines: Seq<ScannedLine>) -> Seq<Line> {
    lines.map_values(|l: ScannedLine| l@)
}

/// A scanned source under its name.
#[derive(Debug, PartialEq, Eq)]
pub struct ScannedFile {
    pub name: Vec<char>,
    pub lines: Vec<ScannedLine>,
}

impl View for ScannedFile {
    type V = File;

    open spec fn view(&self) -> File {
        File { name: self.name@, lines: line_views(self.lines@) }
    }
}

/// The scanned files as `File`s.
pub open spec fn file_views(files: Seq<ScannedFile>) -> Seq<File> {
    files.map_values(|f: ScannedFile| f@)
}

/// The names of the files in a table, in the table's order.
pub open spec fn file_names(table: Seq<File>) -> Seq<Seq<char>> {
    table.map_values(|f: File| f.name)
}

/// Why processing a source failed.
#[derive(Debug, PartialEq, Eq)]
pub enum ProcessError {
    /// `file` asks for `target`, which is being expanded already.
    Cycle { target: String, file: String },
    /// `file` asks for `target`, which the table does not hold.
    MissingInclude { file: String, target: String },
    /// The included `file` declares the version `found`, its parent
    /// `expected`.
    VersionMismatch { file: String, found: String, expected: String },
    /// The pattern matcher does not accept one of the directive patterns.
    Pattern,
}

impl View for ProcessError {
    type V = Failure;

    open spec fn view(&self) -> Failure {
        match self {
            ProcessError::Cycle { target, file } => Failure::Cycle { target: target@, file: file@ },
            ProcessError::MissingInclude { file, target } => Failure::Missing {
                file: file@,
                target: target@,
            },
            ProcessError::VersionMismatch { file, found, expected } => Failure::Version {
                file: file@,
                found: found@,
                expected: expected@,
            },
            ProcessError::Pattern => Failure::Pattern,
        }
    }
}

/// The words in which a failure is reported.
pub open spec fn message_of(failure: Failure) -> Seq<char> {
    match failure {
        Failure::Cycle { target, file } => "recursive inclusion of \""@ + target
            + "\" in shader file \""@ + file + "\""@,
        Failure::Missing { file, target } => "shader file \""@ + file
            + "\" includes non-existent file \""@ + target + "\""@,
        Failure::Version { file, found, expected } => "included file \""@ + file
            + "\" specifies version "@ + found + ", but parent specifies \""@ + expected + "\""@,
        Failure::Pattern => "the pattern matcher rejects a directive pattern"@,
    }
}

impl ProcessError {
    /// The report of the failure, which names the files.
    pub fn message(&self) -> (r: String)
        ensures
            r@ == message_of(self@),
    {
        match self {
            ProcessError::Cycle { target, file } => {
                let mut r = String::from_str("recursive inclusion of \"");
                r.append(target.as_str());
                r.append("\" in shader file \"");
                r.append(file.as_str());
                r.append("\"");
                r
            },
            ProcessError::MissingInclude { file, target } => {
                let mut r = String::from_str("shader file \"");
                r.append(file.as_str());
                r.append("\" includes non-existent file \"");
                r.append(target.as_str());
                r.append("\"");
                r
            },
            ProcessError::VersionMismatch { file, found, expected } => {
                let mut r = String::from_str("included file \"");
                r.append(file.as_str());
                r.append("\" specifies version ");
                r.append(found.as_str());
                r.append(", but parent specifies \"");
                r.append(expected.as_str());
                r.append("\"");
                r
            },
            ProcessError::Pattern => String::from_str(
                "the pattern matcher rejects a directive pattern",
            ),
        }
    }
}

} // verus!
