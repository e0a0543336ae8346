//! Verified core of the FSOT Reality OS kernel: the trit word packing laws,
//! the physical frame allocator and bump heap with the boot memory self-test,
//! the round-robin domain scheduler, the domain table tally, the trinary ISA
//! interpreter, the FSOTB wire-format loader, and the console's decimal
//! rendering and VGA cursor.
//!
//! Everything that touches hardware (port I/O, interrupt tables, raw memory)
//! or floating point lives in the companion program under `app/`.

pub mod trits;
pub mod domain;
pub mod isa;
pub mod fsotb;
pub mod frames;
pub mod heap;
pub mod memtest;
pub mod sched;
pub mod console;
