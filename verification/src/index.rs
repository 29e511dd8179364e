//! Positions into a function's block and mnemonic vectors.
//!
//! The core hands these out from its queries; callers pass them back to
//! indexed accessors. Both are plain newtypes over a vector position.

use vstd::prelude::*;

verus! {

/// Position of a basic block inside a function's block vector.
#[derive(Clone, Copy, Debug, PartialOrd, Ord, PartialEq, Eq, Structural)]
pub struct BasicBlockIndex {
    pub index: usize,
}

impl BasicBlockIndex {
    pub fn new(i: usize) -> (r: BasicBlockIndex)
        ensures
            r.index == i,
    {
        BasicBlockIndex { index: i }
    }

    pub fn index(&self) -> (r: usize)
        ensures
            r == self.index,
    {
        self.index
    }
}

/// Position of a mnemonic inside a function's mnemonic vector.
#[derive(Clone, Copy, Debug, PartialOrd, Ord, PartialEq, Eq, Structural)]
pub struct MnemonicIndex {
    pub index: usize,
}

impl MnemonicIndex {
    pub fn new(index: usize) -> (r: MnemonicIndex)
        ensures
            r.index == index,
    {
        MnemonicIndex { index }
    }

    pub fn index(&self) -> (r: usize)
        ensures
            r == self.index,
    {
        self.index
    }
}

} // verus!
