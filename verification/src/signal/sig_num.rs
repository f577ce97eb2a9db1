//! Well-known signal numbers.

use vstd::prelude::*;

verus! {

/// Terminate immediately.
pub const SIGKILL: usize = 0;
/// Invalid memory access.
pub const SIGSEGV: usize = 1;
/// Illegal instruction.
pub const SIGILL: usize = 2;
/// Timer notification.
pub const SIGALRM: usize = 3;
/// IPC message delivered.
pub const SIGIPC: usize = 4;
/// Graceful termination request.
pub const SIGTERM: usize = 5;
/// Child process exited.
pub const SIGCHLD: usize = 6;
/// User-defined signal 1.
pub const SIGUSER1: usize = 7;
/// User-defined signal 2.
pub const SIGUSER2: usize = 8;

} // verus!
