//! Memory-management core of a small RISC-V kernel: a physical frame allocator,
//! Sv39-style page tables kept in allocated frames, and a kernel heap carved
//! out of frames, each modelled over an explicit arena of words.
use vstd::prelude::*;

pub mod page;
pub mod table;
pub mod malloc;
pub mod linear_allocator;
pub mod shell;
pub mod uart;
pub mod kernel;
