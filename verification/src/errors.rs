//! Error taxonomy of the interpreter.

use vstd::prelude::*;

verus! {

/// The ways a run can fail.
///
/// `UnbalancedLoop` is reported by the bracket resolver when the program's
/// `[` and `]` do not pair up. `IoFailure` and `InternalIndexFault` exist for
/// the I/O shell around the library: the verified engine itself never produces
/// them (its contracts say so), but a caller that drives real streams can fail
/// on a broken read, and a class is reserved for invariant violations, which
/// verification leaves unreachable.
#[derive(Clone, Copy, Debug, PartialEq, Eq, Structural)]
pub enum BfError {
    /// A `]` with no `[` open, or a `[` still open at the end of the program.
    UnbalancedLoop,
    /// An input read failed for a reason other than end-of-stream.
    IoFailure,
    /// An index invariant was violated; unreachable in verified code.
    InternalIndexFault,
}

} // verus!
