//! The block device: a RAM disk of fixed-size blocks, read and written a
//! block at a time or as a byte range.

use vstd::prelude::*;
use vstd::string::StringSliceAdditionalSpecFns;
use crate::filesystem::{HELLO_TXT, README_TXT, BOOT_INFO};

verus! {

/// Block size in bytes.
pub const BLOCK_SIZE: usize = 512;
/// Number of blocks on the RAM disk (128 KiB in all).
pub const NUM_BLOCKS: usize = 256;
/// Size of the RAM disk in bytes.
pub const DISK_BYTES: usize = 131072;

/// The RAM disk.
pub struct RamDisk {
    data: Vec<u8>,
}

/// The disk's contents with `bytes` written from `offset` on.
pub open spec fn overwrite(disk: Seq<u8>, offset: int, bytes: Seq<u8>) -> Seq<u8> {
    Seq::new(disk.len(), |k: int| if offset <= k < offset + bytes.len() { bytes[k - offset] } else { disk[k] })
}

/// What the boot image puts at the start of the disk: the three built-in
/// files, one after another.
pub open spec fn boot_image() -> Seq<u8> {
    HELLO_TXT.spec_bytes() + README_TXT.spec_bytes() + BOOT_INFO.spec_bytes()
}

/// The bytes of block `block` of a disk whose contents are `disk`.
pub open spec fn block_of(disk: Seq<u8>, block: int) -> Seq<u8> {
    disk.subrange(block * BLOCK_SIZE, block * BLOCK_SIZE + BLOCK_SIZE)
}

impl View for RamDisk {
    type V = Seq<u8>;

    closed spec fn view(&self) -> Seq<u8> {
        self.data@
    }
}

impl RamDisk {
    /// The disk always holds `DISK_BYTES` bytes.
    pub closed spec fn wf(&self) -> bool {
        self.data@.len() == DISK_BYTES
    }

    /// A disk of zeros.
    pub fn new() -> (d: Self)
        ensures
            d.wf(),
            d@ == Seq::new(DISK_BYTES as nat, |k: int| 0u8),
    {
        let d = RamDisk { data: vec![0u8; DISK_BYTES] };
        assert(d@ =~= Seq::new(DISK_BYTES as nat, |k: int| 0u8));
        d
    }

    /// Write `bytes` from byte `offset` on; what would fall past the end of
    /// the disk is dropped.
    fn put(&mut self, offset: usize, bytes: &[u8])
        requires
            old(self).wf(),
        ensures
            final(self).wf(),
            final(self)@ == overwrite(old(self)@, offset as int, bytes@),
    {
        let mut j: usize = 0;
        while j < bytes.len()
            invariant
                self.wf(),
                j <= bytes@.len(),
                forall|k: int| 0 <= k < DISK_BYTES ==> #[trigger] self@[k] ==
                    if offset <= k < offset + j { bytes@[k - offset] } else { old(self)@[k] },
            decreases bytes@.len() - j,
        {
            let ghost before = self@;
            if offset < DISK_BYTES && j < DISK_BYTES - offset {
                self.data.set(offset + j, bytes[j]);
            }
            assert forall|k: int| 0 <= k < DISK_BYTES implies #[trigger] self@[k] ==
                (if offset <= k < offset + j + 1 { bytes@[k - offset] } else { old(self)@[k] }) by {
                assert(before[k] == (if offset <= k < offset + j { bytes@[k - offset] } else { old(self)@[k] }));
            }
            j += 1;
        }
        assert(self@ =~= overwrite(old(self)@, offset as int, bytes@));
    }

    /// Load the built-in files onto the disk from byte 0 on (see
    /// `boot_image`); the rest of the disk is kept.
    pub fn init(&mut self)
        requires
            old(self).wf(),
        ensures
            final(self).wf(),
            final(self)@ == overwrite(old(self)@, 0, boot_image()),
    {
        let hello = HELLO_TXT.as_bytes();
        let readme = README_TXT.as_bytes();
        let boot = BOOT_INFO.as_bytes();
        let ghost d0 = self@;
        self.put(0, hello);
        let pos: usize = hello.len();
        self.put(pos, readme);
        let pos2: usize = if readme.len() <= usize::MAX - pos { pos + readme.len() } else { usize::MAX };
        let ghost d2 = self@;
        self.put(pos2, boot);
        assert(self@ =~= overwrite(d0, 0, boot_image())) by {
            if pos2 == usize::MAX {
                assert(overwrite(d2, pos2 as int, boot@) =~= overwrite(d2, pos + readme@.len(), boot@));
            }
        }
    }

    /// Copy block `block` into `buf`; `false`, leaving `buf` alone, when the
    /// block is out of range.
    pub fn read_block(&self, block: usize, buf: &mut [u8; 512]) -> (ok: bool)
        requires
            self.wf(),
        ensures
            ok == (block < NUM_BLOCKS),
            ok ==> final(buf)@ == block_of(self@, block as int),
            !ok ==> final(buf)@ == old(buf)@,
    {
        if block >= NUM_BLOCKS {
            return false;
        }
        let start = block * BLOCK_SIZE;
        let mut j: usize = 0;
        while j < BLOCK_SIZE
            invariant
                self.wf(),
                block < NUM_BLOCKS,
                start == block * BLOCK_SIZE,
                buf@.len() == BLOCK_SIZE,
                j <= BLOCK_SIZE,
                forall|k: int| 0 <= k < j ==> #[trigger] buf@[k] == self@[start + k],
            decreases BLOCK_SIZE - j,
        {
            buf[j] = self.data[start + j];
            j += 1;
        }
        assert(buf@ =~= block_of(self@, block as int));
        true
    }

    /// Overwrite block `block` with `buf`; `false`, changing nothing, when
    /// the block is out of range.
    pub fn write_block(&mut self, block: usize, buf: &[u8; 512]) -> (ok: bool)
        requires
            old(self).wf(),
        ensures
            final(self).wf(),
            ok == (block < NUM_BLOCKS),
            ok ==> final(self)@ == overwrite(old(self)@, block * BLOCK_SIZE, buf@),
            !ok ==> final(self)@ == old(self)@,
    {
        if block >= NUM_BLOCKS {
            return false;
        }
        self.put(block * BLOCK_SIZE, buf);
        true
    }

    /// Copy the disk's bytes from `offset` on into `buf`, as many as fit
    /// and remain; returns the count.
    pub fn read_bytes(&self, offset: usize, buf: &mut [u8]) -> (n: usize)
        requires
            self.wf(),
            offset <= DISK_BYTES,
            offset + old(buf)@.len() <= usize::MAX,
        ensures
            n == if offset + old(buf)@.len() < DISK_BYTES { old(buf)@.len() as int } else { DISK_BYTES - offset },
            final(buf)@ == self@.subrange(offset as int, offset + n) + old(buf)@.subrange(n as int, old(buf)@.len() as int),
    {
        let end = if offset + buf.len() < DISK_BYTES { offset + buf.len() } else { DISK_BYTES };
        let actual = end - offset;
        if actual == 0 {
            assert(buf@ =~= self@.subrange(offset as int, offset as int) + old(buf)@.subrange(0, old(buf)@.len() as int));
            return 0;
        }
        let mut j: usize = 0;
        while j < actual
            invariant
                self.wf(),
                offset + actual <= DISK_BYTES,
                actual <= buf@.len(),
                buf@.len() == old(buf)@.len(),
                j <= actual,
                forall|k: int| 0 <= k < buf@.len() ==> #[trigger] buf@[k] ==
                    if k < j { self@[offset + k] } else { old(buf)@[k] },
            decreases actual - j,
        {
            buf[j] = self.data[offset + j];
            j += 1;
        }
        assert(buf@ =~= self@.subrange(offset as int, offset + actual)
            + old(buf)@.subrange(actual as int, old(buf)@.len() as int));
        actual
    }
}

/// A block read back after it was written gives what was written, and
/// every other block is unchanged by the write.
pub proof fn law_block_write_read(disk: Seq<u8>, block: int, other: int, bytes: Seq<u8>)
    requires
        disk.len() == DISK_BYTES,
        0 <= block < NUM_BLOCKS,
        0 <= other < NUM_BLOCKS,
        other != block,
        bytes.len() == BLOCK_SIZE,
    ensures
        block_of(overwrite(disk, block * BLOCK_SIZE, bytes), block) == bytes,
        block_of(overwrite(disk, block * BLOCK_SIZE, bytes), other) == block_of(disk, other),
{
    let d = overwrite(disk, block * BLOCK_SIZE, bytes);
    assert(block * BLOCK_SIZE + BLOCK_SIZE <= DISK_BYTES) by (nonlinear_arith)
        requires 0 <= block < NUM_BLOCKS;
    assert(other * BLOCK_SIZE + BLOCK_SIZE <= DISK_BYTES) by (nonlinear_arith)
        requires 0 <= other < NUM_BLOCKS;
    assert(other < block ==> other * BLOCK_SIZE + BLOCK_SIZE <= block * BLOCK_SIZE) by (nonlinear_arith);
    assert(block < other ==> block * BLOCK_SIZE + BLOCK_SIZE <= other * BLOCK_SIZE) by (nonlinear_arith);
    assert(block_of(d, block) =~= bytes);
    assert(block_of(d, other) =~= block_of(disk, other));
}

} // verus!
