//! Finds the projects of a monorepo that a change affects.
//!
//! The change of a file affects the projects that own it, and the projects in
//! which a symbol is referred to that the change leads to. The library decides
//! what is affected and why; it reads no files. What lies outside (the changed
//! files, the sources, the places that specifiers resolve to, the references in
//! other files) is handed to it as plain values.
pub mod affected;
pub mod causes;
pub mod ending;
pub mod error;
pub mod explained;
pub mod followed;
pub mod fx;
pub mod laws;
pub mod lists;
pub mod membership;
pub mod outcome;
pub mod owned;
pub mod paths;
pub mod reach;
pub mod semantic;
pub mod spelled;
pub mod strategies;
pub mod taken;
pub mod text;
pub mod told;
pub mod trace;
pub mod types;
pub mod utils;

pub use affected::{find_affected, find_affected_with_report, Action, Analysis, Changes, Start};
pub use error::DominoError;
pub use types::{
    AffectCause, AffectedProjectInfo, AffectedReport, AffectedResult, AssetReference, ChangedFile,
    Export, GlobalTrigger, Import, LockfileStrategy, Project, Reference, ReportTotals,
    TrueAffectedConfig,
};
