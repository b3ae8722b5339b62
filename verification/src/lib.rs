//! Validation core for per-locale translation trees.
//!
//! A project ships one translation tree per locale (optionally split into
//! namespaces).  The first configured locale is the default: its tree alone
//! determines the schema, a mapping from key to classified shape (leaf with
//! optional interpolation keys, or nested subtree).  Every other locale is
//! reconciled against that schema: missing and surplus keys yield warnings,
//! a leaf/subtree disagreement is a fatal error, and an explicit
//! inherit-from-default marker inside the default locale itself is rejected.

pub mod check;
pub mod diag;
pub mod key;
pub mod laws;
pub mod merge;
pub mod project;
pub mod schema;
pub mod tree;
