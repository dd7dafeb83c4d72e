//! The ways a generation run fails.

use vstd::prelude::*;

verus! {

/// Why a run stopped. Any of these ends the whole run at once; what was
/// written before stays written.
#[derive(Clone, Debug, PartialEq, Eq)]
pub enum Error {
    /// Reading, writing or walking the file tree failed.
    Io(String),
    /// The configuration document is malformed.
    ConfigParse(String),
    /// The renderer refused a template.
    Render(String),
    /// A fragment's file name follows neither naming convention.
    InvalidChunkName,
    /// The file that a fragment is meant for does not exist.
    TargetNotFound,
    /// A marker line asks for the reserved mode `insert`.
    UnsupportedInsertionMode,
}

} // verus!
