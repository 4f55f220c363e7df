//! Build-time preprocessing of shader sources: `#include` expansion with
//! line markers, `#version` reconciliation and stable file ids.

pub mod chains;
pub mod comment;
pub mod config;
pub mod document;
pub mod expand;
pub mod laws;
pub mod optimize;
pub mod order;
pub mod pattern;
pub mod reach;
pub mod registry;
pub mod scan;
pub mod scanned;
pub mod text;

pub use config::{Artifact, Config, Included, Source};
pub use optimize::{Language, Optimized, Optimizer, Shader, SourceKind};
pub use registry::{file_id_to_name, FileIds};
pub use scanned::ProcessError;
