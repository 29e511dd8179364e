//! The per-architecture decoder interface.
//!
//! An implementation decodes one instruction sequence at an address and
//! reports the mnemonics it found together with the outgoing jumps. The
//! core validates every decode result before trusting it, so nothing is
//! assumed of implementations.

use vstd::prelude::*;

use crate::error::Error;
use crate::il::Statement;
use crate::mnemonic::Mnemonic;
use crate::region::Region;
use crate::value::Guard;
use crate::value::Rvalue;

verus! {

/// A successful decode at one address: the decoded mnemonics, each with its
/// raw IL statements, and the outgoing jumps `(origin address, target,
/// guard)` the instructions perform.
#[derive(Debug)]
pub struct Match {
    pub mnemonics: Vec<(Mnemonic, Vec<Statement>)>,
    pub jumps: Vec<(u64, Rvalue, Guard)>,
}

/// A machine architecture: decodes instructions out of a region.
///
/// `decode` may fail on undecodable bytes; the work-queue disassembler
/// records such failures and goes on. Nothing is promised of the result:
/// the disassembler checks each decoded mnemonic before splicing it in.
pub trait Architecture {
    /// Decoder configuration, handed through unchanged.
    type Configuration;

    /// Decodes at `addr` inside `region`.
    fn decode(region: &Region, addr: u64, config: &Self::Configuration) -> Result<Match, Error>;
}

} // verus!
