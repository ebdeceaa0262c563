//! Physical memory layout of the machine and page rounding.
//! Addresses are `u64`: the kernel targets a 64-bit machine.

use vstd::prelude::*;

verus! {

/// Size of a physical page and of a virtual page.
pub const PAGE_SIZE: u64 = 4096;

/// Maximum number of cores of the machine.
pub const NUM_CPUS: usize = 8;

/// First address of the kernel image in physical memory.
pub const KERNEL_START: u64 = 0x8000_0000;

/// End of usable physical memory (128 MiB after the kernel's load address).
pub const PHYS_STOP: u64 = 0x8800_0000;

/// Upper bound of the virtual addresses the kernel hands out (2^38).
pub const MAX_VIRTUAL_ADDRESS: u64 = 0x40_0000_0000;

/// Size of the Sv39 virtual address space (2^39).
pub const VA_SPACE: u64 = 0x80_0000_0000;

/// Physical addresses that a page-table entry can name (2^56).
pub const PA_SPACE: u64 = 0x100_0000_0000_0000;

/// UART registers.
pub const UART_LOC0: u64 = 0x1000_0000;

/// Virtio block-device registers.
pub const VIRTIO0: u64 = 0x1000_1000;

/// Platform-level interrupt controller.
pub const PLIC: u64 = 0x0c00_0000;

/// Size of the interrupt controller's register window.
pub const PLIC_SIZE: u64 = 0x400_0000;

/// `n` rounded down to a page boundary.
pub open spec fn page_floor(n: int) -> int {
    n - n % (PAGE_SIZE as int)
}

/// `n` rounded up to a page boundary.
pub open spec fn page_ceil(n: int) -> int {
    if n % (PAGE_SIZE as int) == 0 {
        n
    } else {
        page_floor(n) + PAGE_SIZE
    }
}

/// The next page boundary at or above `n` (4097 -> 8192, 4096 -> 4096, 4 -> 4096).
pub fn get_page_round_up(n: u64) -> (r: u64)
    requires
        n + PAGE_SIZE - 1 <= u64::MAX,
    ensures
        r == page_ceil(n as int),
        r % PAGE_SIZE == 0,
        n <= r < n + PAGE_SIZE,
{
    (n + (PAGE_SIZE - 1)) / PAGE_SIZE * PAGE_SIZE
}

/// The page boundary at or below `n` (4097 -> 4096, 4096 -> 4096, 4 -> 0).
pub fn get_page_round_down(n: u64) -> (r: u64)
    ensures
        r == page_floor(n as int),
        r % PAGE_SIZE == 0,
        r <= n < r + PAGE_SIZE,
{
    n / PAGE_SIZE * PAGE_SIZE
}

} // verus!
