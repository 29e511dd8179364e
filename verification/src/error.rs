use vstd::prelude::*;

verus! {

/// Errors surfaced by the core.
///
/// `NoEntryBlock` is fatal to construction and to `extend`: the entry address
/// did not coincide with any decoded mnemonic's start. `NonContinuousBlock`
/// reports an address gap inside a basic block after `rewrite`; the function
/// is left unchanged. `StatementPushFailure` is reserved for a statement
/// store that rejects a push. `ValueConstructionFailure` reports an r-value
/// that could not be built, such as a zero-bit variable.
#[derive(Clone, Copy, Debug, PartialEq, Eq, Structural)]
pub enum Error {
    NoEntryBlock,
    NonContinuousBlock { block: usize, prev_end: u64, next_start: u64 },
    StatementPushFailure,
    ValueConstructionFailure,
}

} // verus!
