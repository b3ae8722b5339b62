//! Diagnostics: fatal errors and non-fatal warnings.
//!
//! Fatal kinds abort the whole resolution; warnings are accumulated and
//! returned alongside a still-successful result.  Every diagnostic carries
//! the key path of its emission point.

use crate::key::{Key, KeyPath, KeyPathV};
use vstd::prelude::*;

verus! {

/// The shape of a value: a leaf or a nested subtree.
pub enum Shape {
    /// A leaf value.
    Leaf,
    /// A nested subtree.
    Subtree,
}

/// A fatal error: resolution aborts and no schema is produced.
pub enum Error {
    /// A locale file does not exist at its derived path.
    LocaleFileNotFound { path: String, message: String },
    /// A locale file's content is not a well-formed tree.
    LocaleFileDeser { path: String, message: String },
    /// The default locale contains an explicit inherit-from-default marker;
    /// there is nothing for it to inherit from.
    ExplicitDefaultInDefault(KeyPath),
    /// A non-default locale's value has a different shape than the schema
    /// dictates at this path.
    ShapeMismatch { key_path: KeyPath, expected: Shape, found: Shape },
}

/// A non-fatal warning, accumulated during merging.
pub enum Warning {
    /// A locale lacks a key the schema declares; code generation falls back
    /// to the default locale's value.
    MissingKey { locale: Key, key_path: KeyPath },
    /// A locale declares a key the schema does not; the value is ignored.
    SurplusKey { locale: Key, key_path: KeyPath },
}

/// The model of a fatal error.
#[verifier::ext_equal]
pub enum ErrorV {
    NotFound { path: Seq<char>, message: Seq<char> },
    Deser { path: Seq<char>, message: Seq<char> },
    ExplicitDefaultInDefault(KeyPathV),
    ShapeMismatch { key_path: KeyPathV, expected_subtree: bool, found_subtree: bool },
}

/// The model of a warning.
#[verifier::ext_equal]
pub enum WarnV {
    Missing { locale: Seq<char>, key_path: KeyPathV },
    Surplus { locale: Seq<char>, key_path: KeyPathV },
}

impl View for Error {
    type V = ErrorV;

    open spec fn view(&self) -> ErrorV {
        match self {
            Error::LocaleFileNotFound { path, message } => ErrorV::NotFound {
                path: path@,
                message: message@,
            },
            Error::LocaleFileDeser { path, message } => ErrorV::Deser {
                path: path@,
                message: message@,
            },
            Error::ExplicitDefaultInDefault(kp) => ErrorV::ExplicitDefaultInDefault(kp@),
            Error::ShapeMismatch { key_path, expected, found } => ErrorV::ShapeMismatch {
                key_path: key_path@,
                expected_subtree: expected is Subtree,
                found_subtree: found is Subtree,
            },
        }
    }
}

impl View for Warning {
    type V = WarnV;

    open spec fn view(&self) -> WarnV {
        match self {
            Warning::MissingKey { locale, key_path } => WarnV::Missing {
                locale: locale@,
                key_path: key_path@,
            },
            Warning::SurplusKey { locale, key_path } => WarnV::Surplus {
                locale: locale@,
                key_path: key_path@,
            },
        }
    }
}

/// The models of a warning list, in order.
pub open spec fn warn_views(s: Seq<Warning>) -> Seq<WarnV> {
    s.map_values(|w: Warning| w@)
}

} // verus!
