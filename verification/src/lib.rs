//! A verified model of a small teaching kernel for a 32-bit single-core
//! machine: a buddy-system physical allocator seeded by a one-shot bootstrap
//! allocator, per-process two-level page tables, a cooperative scheduler,
//! and the spinlock / one-time-init primitives they rely on.
//!
//! The library is the machine-independent core: all state lives in explicit
//! context objects and addresses are plain integers, so every data-structure
//! decision is verified. The thin platform layer (boot assembly, the firmware
//! console call, the register-level context switch) is not part of this crate.

pub mod addr;
pub mod mem;
pub mod proc;
pub mod stdlib;
pub mod sync;
pub mod tree;
pub mod vm;
