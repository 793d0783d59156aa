//! A small instruction-set toolchain: a two-pass assembler for a four-opcode
//! register machine, a peephole optimizer, and the virtual machine that runs
//! the assembled bytecode while keeping an execution profile.

pub mod catalog;
pub mod text;
pub mod assembler;
pub mod assembly_laws;
pub mod optimizer;
pub mod profile;
pub mod cpu;
pub mod observers;
pub mod store;
pub mod ai_optimizer;
