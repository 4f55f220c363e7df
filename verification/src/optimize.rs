//! The decisions around the native shader optimizer. The optimizer itself
//! is run by the caller: this module says on what, and what becomes of its
//! answer.

use vstd::prelude::*;

verus! {

/// The language that shaders are optimized for.
#[derive(Copy, Clone, Eq, PartialEq, Debug)]
pub enum Language {
    OpenGl,
    OpenGlEs20,
    OpenGlEs30,
}

/// What a source is compiled as.
#[derive(Copy, Clone, Eq, PartialEq, Debug)]
pub enum SourceKind {
    Vertex,
    Fragment,
    Unknown,
}

/// The optimizer that a configuration asked for, set up for one language.
#[derive(Copy, Clone, Eq, PartialEq, Debug)]
pub struct Optimizer {
    pub lang: Language,
}

/// A vertex or fragment shader on its way through the native optimizer.
#[derive(Debug, PartialEq, Eq)]
pub struct Shader {
    pub kind: SourceKind,
    pub source: String,
}

/// What is to be done with an assembled source.
#[derive(Debug, PartialEq, Eq)]
pub enum Optimized {
    /// Nothing: the text stays as it is.
    Unchanged(String),
    /// The native optimizer is to run on this shader.
    Native(Shader),
}

/// What `Optimizer::optimize` decides.
pub open spec fn optimize_spec(source: Seq<char>, kind: SourceKind) -> (Option<SourceKind>, Seq<char>) {
    match kind {
        SourceKind::Unknown => (None, source),
        _ => (Some(kind), source),
    }
}

/// What a decision says: the kind for the native optimizer, if it is to
/// run, and the text.
pub open spec fn optimized_view(o: Optimized) -> (Option<SourceKind>, Seq<char>) {
    match o {
        Optimized::Unchanged(text) => (None, text@),
        Optimized::Native(shader) => (Some(shader.kind), shader.source@),
    }
}

impl Shader {
    /// The shader has a kind that the native optimizer knows.
    pub open spec fn wf(self) -> bool {
        self.kind != SourceKind::Unknown
    }

    /// A shader for the optimizer, of the kind `Vertex` or `Fragment`.
    pub fn new(opt: &Optimizer, source: String, kind: SourceKind) -> (r: Shader)
        requires
            kind != SourceKind::Unknown,
        ensures
            r.kind == kind,
            r.source == source,
            r.wf(),
    {
        Shader { kind, source }
    }

    /// What the native optimizer's answer means: the optimized text where it
    /// reports success, else its log.
    pub fn source(&self, status: bool, output: String, log: String) -> (r: Result<String, String>)
        ensures
            status ==> r == Ok::<String, String>(output),
            !status ==> r == Err::<String, String>(log),
    {
        if status {
            Ok(output)
        } else {
            Err(log)
        }
    }
}

impl Optimizer {
    /// An optimizer for the language.
    pub fn new(lang: Language) -> (r: Optimizer)
        ensures
            r.lang == lang,
    {
        Optimizer { lang }
    }

    /// A source of unknown kind stays as it is; a vertex or fragment shader
    /// goes to the native optimizer.
    pub fn optimize(&self, source: String, kind: SourceKind) -> (r: Optimized)
        ensures
            optimized_view(r) == optimize_spec(source@, kind),
            r matches Optimized::Native(shader) ==> shader.wf(),
    {
        match kind {
            SourceKind::Unknown => Optimized::Unchanged(source),
            SourceKind::Vertex => Optimized::Native(Shader::new(self, source, SourceKind::Vertex)),
            SourceKind::Fragment => Optimized::Native(
                Shader::new(self, source, SourceKind::Fragment),
            ),
        }
    }
}

} // verus!
