//! Memory-management core of a small multi-core RISC-V kernel: a physical page
//! allocator, Sv39 page tables, and a spinlock with interrupt-nesting accounting.
//! Physical memory is reached through `PhysMemory`, an in-memory stand-in for
//! the machine's RAM, so every component can be exercised off the hardware.

pub mod layout;
pub mod memory;
pub mod kalloc;
pub mod vm;
pub mod cpu;
pub mod spinlock;
pub mod console;
pub mod uart;
