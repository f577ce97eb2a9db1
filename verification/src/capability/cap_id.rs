//! Well-known capability indices: the bit positions that correspond to
//! specific IPC endpoints or kernel operations.

use vstd::prelude::*;

verus! {

/// Capability bit for sending messages to PID 1 (VGA server).
pub const VGA_SEND: usize = 0;
/// Capability bit for sending messages to PID 2 (keyboard server).
pub const KEYBOARD_SEND: usize = 1;
/// Capability bit for sending IRQ registration requests.
pub const INTERRUPT_SEND: usize = 2;
/// Capability bit for sending messages to arbitrary driver processes.
pub const DRIVER_SEND: usize = 3;
/// Capability bit required to create child processes.
pub const FORK: usize = 4;
/// Capability bit required to load executables.
pub const EXEC: usize = 5;
/// Capability bit required to register as an IRQ handler.
pub const IRQ_REGISTER: usize = 6;

} // verus!
