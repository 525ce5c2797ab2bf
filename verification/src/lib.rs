//! Resolution of consistent package-version sets under Debian versioning
//! semantics: the exact total order over Debian version strings, an
//! immutable range algebra over that order, a read-only catalog of known
//! versions and their dependencies, and the encoding of disjunctive
//! ("one of several alternatives") dependencies as synthetic proxy
//! packages, so that a generic range-based resolver can drive the search.

pub mod debian_version;
pub mod version_order;
pub mod range;
pub mod index;
pub mod debian_deps;
pub mod parse;
