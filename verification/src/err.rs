//! Error taxonomy of the module-rewriting engine.

use vstd::prelude::*;

verus! {

/// What can go wrong while scanning, planning or re-encoding a module.
///
/// `NoData` is a sentinel: the caller treats it as "nothing to do" and passes
/// the input through unchanged. All other kinds propagate.
#[derive(Clone, Copy, Debug, PartialEq, Eq, Structural)]
pub enum SqueezeError {
    /// Malformed module bytes, during either pass.
    Parse,
    /// A well-formed construct this tool does not handle: multi-memory,
    /// duplicated unique sections, multiple mutable globals, and the like.
    Unsupported,
    /// An active data segment whose offset expression is not exactly
    /// `i32.const N; end`.
    UnsupportedOffset,
    /// No active data segments were observed.
    NoData,
    /// Index arithmetic overflowed while renumbering: the combined module
    /// would be unrepresentable.
    Encode,
}

} // verus!
