//! Basic blocks: maximal straight-line runs of mnemonics.

use vstd::prelude::*;

use core::ops::Range;

use crate::cfg::ControlFlowRef;
use crate::index::MnemonicIndex;

verus! {

/// A basic block: the half-open range of its mnemonics inside the owning
/// function's mnemonic vector, the covered address range derived from its
/// first and last mnemonic, and its node in the control-flow graph.
#[derive(Debug)]
pub struct BasicBlock {
    pub mnemonics: Range<MnemonicIndex>,
    pub node: ControlFlowRef,
    pub area: Range<u64>,
}

impl BasicBlock {
    /// The covered address range.
    pub fn area(&self) -> (r: Range<u64>)
        ensures
            r.start == self.area.start,
            r.end == self.area.end,
    {
        self.area.start..self.area.end
    }
}

impl Clone for BasicBlock {
    fn clone(&self) -> (r: Self)
        ensures
            r.mnemonics.start == self.mnemonics.start,
            r.mnemonics.end == self.mnemonics.end,
            r.node == self.node,
            r.area.start == self.area.start,
            r.area.end == self.area.end,
    {
        BasicBlock {
            mnemonics: self.mnemonics.start..self.mnemonics.end,
            node: self.node,
            area: self.area.start..self.area.end,
        }
    }
}

} // verus!
