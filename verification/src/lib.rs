//! Control-flow recovery core of a machine-code disassembler.
//!
//! Given an entry address, a memory region and a per-architecture decoder,
//! the library builds a function-level intermediate representation: an
//! address-sorted mnemonic vector, a partition of it into basic blocks, a
//! control-flow graph whose nodes are blocks or unresolved jump targets, and
//! an intermediate-language statement stream laid out in reverse-postorder.

#![verifier::loop_isolation(false)]

pub mod arch;
pub mod assembler;
pub mod block;
pub mod cfg;
pub mod disasm;
pub mod error;
pub mod function;
pub mod ids;
pub mod il;
pub mod index;
pub mod mnemonic;
pub mod region;
pub mod value;

pub use arch::Architecture;
pub use arch::Match;
pub use block::BasicBlock;
pub use cfg::CfgNode;
pub use cfg::ControlFlowEdge;
pub use cfg::ControlFlowGraph;
pub use cfg::ControlFlowRef;
pub use error::Error;
pub use function::Function;
pub use function::FunctionKind;
pub use function::IntoMnemonicRange;
pub use function::IntoStatementRange;
pub use il::Operation;
pub use il::Statement;
pub use index::BasicBlockIndex;
pub use index::MnemonicIndex;
pub use mnemonic::Argument;
pub use mnemonic::Mnemonic;
pub use mnemonic::MnemonicFormatToken;
pub use region::OpaqueLayer;
pub use region::Region;
pub use value::Constant;
pub use value::Guard;
pub use value::Rvalue;
pub use value::Value;
pub use value::Variable;
