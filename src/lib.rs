//! The query and grouping core of an SBOM and advisory catalog.
//!
//! - [`query`] parses the text query language into constraints and full-text terms;
//!   [`value`] reads its atoms (numbers, UUIDs, timestamps, dates, relative days).
//! - [`filter`] turns a parsed query into typed predicates over declared columns;
//!   [`matching`] evaluates such predicates on stored groups.
//! - [`group`] keeps the forest of SBOM groups and the assignments of SBOMs to them,
//!   with revisions checked on every change, cycles refused, and lookups by path
//!   ([`path`]), name ([`name`]) and entity tag ([`etag`]).
//! - [`license`] lists the effective licenses of an SBOM, distinct up to case.
//! - [`func`] names the custom SQL functions; [`sbom`] holds small listing types;
//!   [`error`] classifies failures; [`text`] converts between strings and characters.

pub mod text;
pub mod error;
pub mod name;
pub mod path;
pub mod query;
pub mod value;
pub mod filter;
pub mod matching;
pub mod group;
pub mod func;
pub mod sbom;
pub mod etag;
pub mod license;
