//! Audits a set of source files for declarations whose names carry the
//! `_unchecked` marker and reports, for each such declaration, whether the
//! same file declares a checked counterpart (the name with the marker
//! removed).

pub mod audit;
pub mod decl;
pub mod marker;
pub mod parse;
