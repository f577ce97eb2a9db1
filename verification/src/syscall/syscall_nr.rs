//! System call numbers.

use vstd::prelude::*;

verus! {

pub const EXIT: usize = 0;
pub const WRITE: usize = 1;
pub const READ: usize = 2;
pub const IPC_SEND: usize = 3;
pub const IPC_RECV: usize = 4;
pub const BRK: usize = 5;
pub const GETPID: usize = 6;
pub const VGA_WRITE: usize = 7;
pub const VGA_CLEAR: usize = 8;
pub const SCHEDULE: usize = 9;
pub const GET_SERVER_PID: usize = 10;

} // verus!
