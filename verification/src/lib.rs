//! Verified building blocks of the Sensei IR toolchain: EVM opcode tables,
//! bytecode decoding and lifting, and the assembler.
pub mod opcode;
pub mod text;

pub use opcode::{Opcode, StackIO};
pub mod instructions;
pub mod decode;
pub mod abs_evm;
pub mod cache;
pub mod passes;
pub mod primitive_blocks;
pub mod symbolic;
pub mod word;
pub mod icall;
pub mod ordered;
pub mod cfg;
pub mod ownership;
pub mod classify;
pub mod stack_bound;
pub mod verify;
pub mod ssa;
pub mod ssa_listing;
pub mod lower;
pub mod assembler;
