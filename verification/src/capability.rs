//! Capability bitmaps: a process may send IPC to an endpoint only when it
//! holds the matching capability bit.

use vstd::prelude::*;
use crate::bitops::{bit_of, lemma_set_bit, lemma_clear_bit, lemma_test_bit};

pub mod cap_id;

verus! {

/// Maximum number of distinct capability types supported by the system.
pub const MAX_CAPABILITIES: usize = 64;

/// Whether bit `cap` is set in the bitmap `caps` (false outside 0..64).
pub open spec fn bit_set(caps: u64, cap: int) -> bool {
    bit_of(caps, cap)
}

/// Grant capability `cap` to the bitmap. Returns `false` (bitmap unchanged)
/// when `cap` is not a valid capability index.
pub fn grant(proc_caps: &mut u64, cap: usize) -> (ok: bool)
    ensures
        ok == (cap < MAX_CAPABILITIES),
        !ok ==> *final(proc_caps) == *old(proc_caps),
        ok ==> *final(proc_caps) == *old(proc_caps) | (1u64 << cap as u64),
        forall|j: int| #[trigger] bit_set(*final(proc_caps), j) <==> (bit_set(*old(proc_caps), j) || (ok && j == cap)),
{
    if cap >= MAX_CAPABILITIES {
        return false;
    }
    let b = cap as u64;
    let ghost before = *proc_caps;
    *proc_caps = *proc_caps | (1u64 << b);
    assert forall|j: int| #[trigger] bit_set(*proc_caps, j) <==> (bit_set(before, j) || j == cap) by {
        if 0 <= j < 64 {
            lemma_set_bit(before, b, j as u64);
        }
    }
    true
}

/// Revoke capability `cap` from the bitmap. Returns `false` (bitmap
/// unchanged) when `cap` is not a valid capability index.
pub fn revoke(proc_caps: &mut u64, cap: usize) -> (ok: bool)
    ensures
        ok == (cap < MAX_CAPABILITIES),
        !ok ==> *final(proc_caps) == *old(proc_caps),
        ok ==> *final(proc_caps) == *old(proc_caps) & !(1u64 << cap as u64),
        forall|j: int| #[trigger] bit_set(*final(proc_caps), j) <==> (bit_set(*old(proc_caps), j) && !(ok && j == cap)),
{
    if cap >= MAX_CAPABILITIES {
        return false;
    }
    let b = cap as u64;
    let ghost before = *proc_caps;
    *proc_caps = *proc_caps & !(1u64 << b);
    assert forall|j: int| #[trigger] bit_set(*proc_caps, j) <==> (bit_set(before, j) && j != cap) by {
        if 0 <= j < 64 {
            lemma_clear_bit(before, b, j as u64);
        }
    }
    true
}

/// Whether the bitmap holds capability `cap`.
pub fn has(proc_caps: u64, cap: usize) -> (r: bool)
    ensures
        r == bit_set(proc_caps, cap as int),
{
    if cap >= MAX_CAPABILITIES {
        return false;
    }
    let b = cap as u64;
    proof { lemma_test_bit(proc_caps, b); }
    proc_caps & (1u64 << b) != 0
}

/// The capability required to send IPC to `dst_pid`, or `None` for the
/// kernel (PID 0), which every process may reach.
pub open spec fn required_send_cap(dst_pid: u16) -> Option<int> {
    if dst_pid == 0 {
        None
    } else if dst_pid == 1 {
        Some(cap_id::VGA_SEND as int)
    } else if dst_pid == 2 {
        Some(cap_id::KEYBOARD_SEND as int)
    } else {
        Some(cap_id::DRIVER_SEND as int)
    }
}

/// Whether a process holding `sender_caps` may send IPC to `dst_pid`:
/// PID 0 always, PID 1 with `VGA_SEND`, PID 2 with `KEYBOARD_SEND`,
/// any other PID with `DRIVER_SEND`.
pub fn check_ipc_send(sender_caps: u64, dst_pid: u16) -> (r: bool)
    ensures
        r == match required_send_cap(dst_pid) {
            None => true,
            Some(c) => bit_set(sender_caps, c),
        },
{
    if dst_pid == 0 {
        return true;
    }
    let required_cap = match dst_pid {
        1 => cap_id::VGA_SEND,
        2 => cap_id::KEYBOARD_SEND,
        _ => cap_id::DRIVER_SEND,
    };
    has(sender_caps, required_cap)
}

/// Revoking a capability that was just granted to a bitmap that lacked it
/// gives the bitmap back; granting one that was just revoked from a bitmap
/// that held it does too.
pub proof fn law_grant_revoke_round_trip(caps: u64, cap: u64)
    requires
        cap < 64,
    ensures
        !bit_set(caps, cap as int) ==> (caps | (1u64 << cap)) & !(1u64 << cap) == caps,
        bit_set(caps, cap as int) ==> (caps & !(1u64 << cap)) | (1u64 << cap) == caps,
{
    if bit_set(caps, cap as int) {
        assert((caps & !(1u64 << cap)) | (1u64 << cap) == caps) by (bit_vector)
            requires cap < 64, (caps >> cap) & 1u64 == 1u64;
    } else {
        assert((caps >> cap) & 1u64 == 0u64) by (bit_vector)
            requires cap < 64, (caps >> cap) & 1u64 != 1u64;
        assert((caps | (1u64 << cap)) & !(1u64 << cap) == caps) by (bit_vector)
            requires cap < 64, (caps >> cap) & 1u64 == 0u64;
    }
}

/// Who may send to whom, over every bitmap and PID: anyone may send to the
/// kernel (PID 0); sending to PID 1 takes bit 0 of the sender's bitmap,
/// to PID 2 bit 1, and to every other PID bit 3.
pub proof fn law_send_permission(caps: u64, dst_pid: u16)
    ensures
        (match required_send_cap(dst_pid) {
            None => true,
            Some(c) => bit_set(caps, c),
        }) == if dst_pid == 0 {
            true
        } else if dst_pid == 1 {
            caps & 1u64 == 1u64
        } else if dst_pid == 2 {
            (caps >> 1u64) & 1u64 == 1u64
        } else {
            (caps >> 3u64) & 1u64 == 1u64
        },
{
    assert((caps >> 0u64) & 1u64 == caps & 1u64) by (bit_vector);
}

/// Granting a capability gives the right to send where it is required,
/// and revoking it takes that right away, whatever else the bitmap holds:
/// for example, a bitmap with bit 3 may send to any PID from 3 on, and one
/// without it to none of them.
pub proof fn law_send_needs_its_bit(caps: u64, dst_pid: u16)
    requires
        dst_pid >= 3,
    ensures
        (match required_send_cap(dst_pid) {
            None => true,
            Some(c) => bit_set(caps | 8u64, c),
        }),
        !(match required_send_cap(dst_pid) {
            None => true,
            Some(c) => bit_set(caps & !8u64, c),
        }),
{
    assert(((caps | 8u64) >> 3u64) & 1u64 == 1u64 && ((caps & !8u64) >> 3u64) & 1u64 == 0u64) by (bit_vector);
}

/// Bit `b` of a bitmap is set exactly when masking with `1 << b` leaves
/// something; setting it makes it set, clearing it makes it clear.
pub proof fn law_bits(caps: u64, b: u64)
    requires
        b < 64,
    ensures
        bit_set(caps, b as int) == (caps & (1u64 << b) != 0),
        bit_set(caps | (1u64 << b), b as int),
        !bit_set(caps & !(1u64 << b), b as int),
        !bit_set(0u64, b as int),
{
    assert(((caps >> b) & 1u64 == 1u64) == (caps & (1u64 << b) != 0)
        && ((caps | (1u64 << b)) >> b) & 1u64 == 1u64
        && ((caps & !(1u64 << b)) >> b) & 1u64 == 0u64
        && (0u64 >> b) & 1u64 == 0u64) by (bit_vector)
        requires b < 64;
}

} // verus!
