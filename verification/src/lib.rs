//! The machine-level core of a small x86 kernel, with its behaviour proved:
//! the memory routines of the runtime (`memset`, `memcpy`, `memmove` and the
//! word-sized fills), page-table entries and the two-level page tables of the
//! memory-management unit, interrupt-descriptor entries, the decisions of the
//! exception handler, and the search for the multiprocessor configuration.
//!
//! Hardware state is modelled as plain values: memory as a vector of bytes
//! (runtime, multiprocessor scan) or of 32-bit words (page tables), and the
//! control registers as fields of `mmu::Machine`.

pub mod exception;
pub mod idt;
pub mod mmu;
pub mod page;
pub mod runtime;
pub mod smp;
pub mod util;
