//! Decoded mnemonics: one instruction with its address range, opcode,
//! operands, rendering tokens and the range of its IL statements inside the
//! owning function's statement store.

use vstd::prelude::*;

use core::ops::Range;

use crate::value::Rvalue;
use crate::value::RvalueV;
use crate::value::Value;

verus! {

/// One token of a mnemonic's textual rendering.
#[derive(Clone, Copy, Debug, PartialEq, Eq, Structural)]
pub enum MnemonicFormatToken {
    Literal(char),
    Variable { has_sign: bool },
    Pointer { is_code: bool },
}

impl View for MnemonicFormatToken {
    type V = MnemonicFormatToken;

    open spec fn view(&self) -> MnemonicFormatToken {
        *self
    }
}

impl DeepView for MnemonicFormatToken {
    type V = MnemonicFormatToken;

    open spec fn deep_view(&self) -> MnemonicFormatToken {
        *self
    }
}

/// A rendered operand of a mnemonic. Internal to [`Mnemonic`].
#[derive(Debug)]
pub enum Argument {
    Literal(char),
    Value { has_sign: bool, value: Value },
    Pointer { is_code: bool, region: String, address: Value },
}

/// One decoded instruction.
///
/// `area` is the half-open address range the instruction occupies;
/// `statements` is the half-open range of its IL statements inside the
/// owning function's statement store, recomputed on every assembly and
/// rewrite.
#[derive(Debug)]
pub struct Mnemonic {
    pub area: Range<u64>,
    pub opcode: String,
    pub operands: Vec<Rvalue>,
    pub format_string: Vec<MnemonicFormatToken>,
    pub statements: Range<usize>,
}

/// Mathematical image of a [`Mnemonic`].
pub ghost struct MnemonicV {
    pub start: u64,
    pub end: u64,
    pub opcode: Seq<char>,
    pub operands: Seq<RvalueV>,
    pub format_string: Seq<MnemonicFormatToken>,
    pub s_start: usize,
    pub s_end: usize,
}

impl View for Mnemonic {
    type V = MnemonicV;

    open spec fn view(&self) -> MnemonicV {
        MnemonicV {
            start: self.area.start,
            end: self.area.end,
            opcode: self.opcode@,
            operands: self.operands.deep_view(),
            format_string: self.format_string.deep_view(),
            s_start: self.statements.start,
            s_end: self.statements.end,
        }
    }
}

impl DeepView for Mnemonic {
    type V = MnemonicV;

    open spec fn deep_view(&self) -> MnemonicV {
        self@
    }
}

impl Clone for Mnemonic {
    fn clone(&self) -> (r: Self)
        ensures
            r@ == self@,
    {
        let operands = self.operands.clone();
        let format_string = self.format_string.clone();
        proof {
            assert(operands.deep_view() =~= self.operands.deep_view());
            assert(format_string.deep_view() =~= self.format_string.deep_view());
        }
        Mnemonic {
            area: self.area.start..self.area.end,
            opcode: self.opcode.clone(),
            operands,
            format_string,
            statements: self.statements.start..self.statements.end,
        }
    }
}

impl Mnemonic {
    /// A fresh mnemonic over `area` with opcode `opcode`, no operands, no
    /// format tokens and an empty statement range.
    pub fn new(area: Range<u64>, opcode: &str) -> (r: Mnemonic)
        ensures
            r@ == (MnemonicV {
                start: area.start,
                end: area.end,
                opcode: opcode@,
                operands: Seq::<RvalueV>::empty(),
                format_string: Seq::<MnemonicFormatToken>::empty(),
                s_start: 0,
                s_end: 0,
            }),
    {
        let r = Mnemonic {
            area,
            opcode: opcode.to_owned(),
            operands: Vec::new(),
            format_string: Vec::new(),
            statements: 0..0,
        };
        proof {
            assert(r.operands.deep_view() =~= Seq::<RvalueV>::empty());
            assert(r.format_string.deep_view() =~= Seq::<MnemonicFormatToken>::empty());
        }
        r
    }
}

} // verus!
