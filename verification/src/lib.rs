//! A name-normalization library for project identifiers.
//!
//! Given a free-form identifier string and a `force` flag, the library
//! produces a canonical, conventionally-cased identifier: a forced name
//! passes through verbatim, a name already in snake_case is kept, and
//! every other name is rewritten to kebab-case.

pub mod casing;
pub mod name;

pub use name::ProjectName;
pub use name::sanitize_project_name;
