//! Page-table entry flag bits.

use vstd::prelude::*;

verus! {

/// Present.
pub const PRESENT: u64 = 0x1;
/// Writable.
pub const WRITABLE: u64 = 0x2;
/// Accessible from ring 3.
pub const USER_ACCESS: u64 = 0x4;
/// Page-level write-through.
pub const WRITE_THROUGH: u64 = 0x8;
/// Page-level cache disable.
pub const CACHE_DISABLE: u64 = 0x10;
/// Accessed (set by the CPU).
pub const ACCESSED: u64 = 0x20;
/// Dirty (set by the CPU).
pub const DIRTY: u64 = 0x40;
/// Large page: in a PD a 2 MiB page, in a PDPT a 1 GiB page.
pub const LARGE: u64 = 0x80;
/// Global page: TLB entries survive CR3 writes (when CR4.PGE is set).
pub const GLOBAL: u64 = 0x100;
/// No-execute.
pub const EXECUTABLE_DISABLE: u64 = 0x8000_0000_0000_0000;
/// Copy-on-write marker (bit 9, available to the OS): the page is shared
/// after a fork and must be copied on the first write.
pub const COW: u64 = 0x200;

} // verus!
