//! The embedded flat filesystem: a directory table of built-in files and
//! per-process tables of open file descriptors with read cursors.

use vstd::prelude::*;
use vstd::string::StringSliceAdditionalSpecFns;
use vstd::slice::slice_to_vec;
use crate::process::MAX_PROCESSES;

verus! {

/// Number of directory entries.
pub const MAX_FILES: usize = 16;
/// Bytes of a stored name (at most 31 significant bytes, zero padded).
pub const MAX_NAME_LEN: usize = 32;
/// Open file descriptors per process.
pub const MAX_FDS: usize = 8;

/// Contents of `hello.txt`.
pub const HELLO_TXT: &'static str = "Hello from the LearnOS filesystem!\nThis file is embedded in the kernel.\n";
/// Contents of `README`.
pub const README_TXT: &'static str = "LearnOS - a minimal microkernel for learning.\n\nAvailable commands:\n  help  - show this message\n  read  - read a file by name\n  exec  - exec a built-in program\n  clear - clear the screen\n";
/// Contents of `boot.cfg`.
pub const BOOT_INFO: &'static str = "[boot]\nkernel=learnos.bin\ninitrd=init.tar\nroot=/dev/ram0\n";

/// A directory entry: a zero-padded name and the file's data (`None` for
/// an unused entry).
pub struct DirEntry {
    pub name: [u8; 32],
    pub data: Option<Vec<u8>>,
}

/// An open file descriptor: the directory index it refers to (`None` for a
/// free descriptor) and the read cursor.
#[derive(Clone, Copy)]
pub struct OpenFile {
    pub file_id: Option<usize>,
    pub pos: usize,
}

/// The stored form of a name: its first 31 bytes, zero padded to 32.
pub open spec fn spec_normalize(bytes: Seq<u8>) -> Seq<u8> {
    Seq::new(MAX_NAME_LEN as nat, |i: int| if i < bytes.len() && i < MAX_NAME_LEN - 1 { bytes[i] } else { 0u8 })
}

/// Convert a file name to its stored form (see `spec_normalize`).
pub fn normalize_name(name: &str) -> (buf: [u8; 32])
    ensures
        buf@ == spec_normalize(name.spec_bytes()),
{
    let mut buf = [0u8; 32];
    let bytes = name.as_bytes();
    let len = if bytes.len() < MAX_NAME_LEN - 1 { bytes.len() } else { MAX_NAME_LEN - 1 };
    let mut i: usize = 0;
    while i < len
        invariant
            len <= bytes@.len(),
            len < MAX_NAME_LEN,
            bytes@ == name.spec_bytes(),
            i <= len,
            buf@.len() == MAX_NAME_LEN,
            forall|k: int| 0 <= k < MAX_NAME_LEN ==> #[trigger] buf@[k] == if k < i { bytes@[k] } else { 0u8 },
        decreases len - i,
    {
        buf[i] = bytes[i];
        i += 1;
    }
    assert(buf@ =~= spec_normalize(name.spec_bytes()));
    buf
}

/// The directory entry of a built-in file.
fn builtin_entry(name: &str, data: &str) -> (e: DirEntry)
    ensures
        e.name@ == spec_normalize(name.spec_bytes()),
        e.data matches Some(d) && d@ == data.spec_bytes(),
{
    DirEntry { name: normalize_name(name), data: Some(slice_to_vec(data.as_bytes())) }
}

/// The built-in directory: `hello.txt`, `README` and `boot.cfg` at indices
/// 0 to 2, every other entry unused with an all-zero name.
pub open spec fn builtin_directory(dir: Seq<DirEntry>) -> bool {
    &&& dir.len() == MAX_FILES
    &&& dir[0].name@ == spec_normalize("hello.txt".spec_bytes())
    &&& dir[0].data matches Some(d) && d@ == HELLO_TXT.spec_bytes()
    &&& dir[1].name@ == spec_normalize("README".spec_bytes())
    &&& dir[1].data matches Some(d) && d@ == README_TXT.spec_bytes()
    &&& dir[2].name@ == spec_normalize("boot.cfg".spec_bytes())
    &&& dir[2].data matches Some(d) && d@ == BOOT_INFO.spec_bytes()
    &&& forall|i: int| 3 <= i < MAX_FILES ==> (#[trigger] dir[i]).data is None && dir[i].name@ == Seq::new(32, |k: int| 0u8)
}

/// Build the directory table of built-in files.
pub fn build_dir_table() -> (dir: Vec<DirEntry>)
    ensures
        builtin_directory(dir@),
{
    let mut dir: Vec<DirEntry> = Vec::new();
    dir.push(builtin_entry("hello.txt", HELLO_TXT));
    dir.push(builtin_entry("README", README_TXT));
    dir.push(builtin_entry("boot.cfg", BOOT_INFO));
    let mut i: usize = 3;
    while i < MAX_FILES
        invariant
            3 <= i <= MAX_FILES,
            dir@.len() == i,
            dir@[0].name@ == spec_normalize("hello.txt".spec_bytes()),
            dir@[0].data matches Some(d) && d@ == HELLO_TXT.spec_bytes(),
            dir@[1].name@ == spec_normalize("README".spec_bytes()),
            dir@[1].data matches Some(d) && d@ == README_TXT.spec_bytes(),
            dir@[2].name@ == spec_normalize("boot.cfg".spec_bytes()),
            dir@[2].data matches Some(d) && d@ == BOOT_INFO.spec_bytes(),
            forall|k: int| 3 <= k < i ==> (#[trigger] dir@[k]).data is None && dir@[k].name@ == Seq::new(32, |j: int| 0u8),
        decreases MAX_FILES - i,
    {
        let z = [0u8; 32];
        assert(z@ =~= Seq::new(32, |j: int| 0u8));
        dir.push(DirEntry { name: z, data: None });
        i += 1;
    }
    dir
}

/// Entry `i` of `dir` is a file whose stored name is `name`.
pub open spec fn names_file(dir: Seq<DirEntry>, i: int, name: Seq<u8>) -> bool {
    0 <= i < dir.len() && dir[i].data is Some && dir[i].name@ == name
}

/// The directory index found for `name`: the first file whose stored name
/// equals the stored form of `name`.
pub open spec fn spec_find_file(dir: Seq<DirEntry>, name: Seq<u8>) -> Option<int> {
    if exists|i: int| names_file(dir, i, spec_normalize(name)) {
        Some(choose|i: int| names_file(dir, i, spec_normalize(name))
            && forall|j: int| 0 <= j < i ==> !#[trigger] names_file(dir, j, spec_normalize(name)))
    } else {
        None
    }
}

proof fn lemma_first_name(dir: Seq<DirEntry>, n: Seq<u8>, w: int)
    requires
        names_file(dir, w, n),
    ensures
        exists|i: int| names_file(dir, i, n) && forall|j: int| 0 <= j < i ==> !#[trigger] names_file(dir, j, n),
    decreases w,
{
    if forall|j: int| 0 <= j < w ==> !#[trigger] names_file(dir, j, n) {
    } else {
        let v = choose|j: int| 0 <= j < w && #[trigger] names_file(dir, j, n);
        lemma_first_name(dir, n, v);
    }
}

/// The index that `spec_find_file` gives names a file, and no earlier
/// entry does.
pub proof fn lemma_find_file(dir: Seq<DirEntry>, name: Seq<u8>)
    ensures
        spec_find_file(dir, name) matches Some(i) ==> names_file(dir, i, spec_normalize(name))
            && forall|j: int| 0 <= j < i ==> !#[trigger] names_file(dir, j, spec_normalize(name)),
{
    let n = spec_normalize(name);
    if exists|i: int| names_file(dir, i, n) {
        let w = choose|i: int| names_file(dir, i, n);
        lemma_first_name(dir, n, w);
    }
}

/// Length of a stored name: the bytes before its first zero (all of it
/// when it holds none).
pub open spec fn stored_name_len(name: Seq<u8>) -> nat
    decreases name.len(),
{
    if name.len() == 0 || name[0] == 0 {
        0
    } else {
        1 + stored_name_len(name.drop_first())
    }
}

/// The part of a listing for a directory entry: its name as a
/// null-terminated string for a file, nothing for an unused entry.
pub open spec fn listing_line(e: DirEntry) -> Seq<u8> {
    if e.data is Some {
        e.name@.take(stored_name_len(e.name@) as int).push(0u8)
    } else {
        Seq::empty()
    }
}

/// The listing of a directory: the names of its files in order, each
/// null-terminated.
pub open spec fn listing(dir: Seq<DirEntry>) -> Seq<u8>
    decreases dir.len(),
{
    if dir.len() == 0 {
        Seq::empty()
    } else {
        listing(dir.drop_last()) + listing_line(dir.last())
    }
}

/// A stored name's length is the index of its first zero.
proof fn lemma_stored_name_len(name: Seq<u8>, n: int)
    requires
        0 <= n <= name.len(),
        forall|i: int| 0 <= i < n ==> name[i] != 0,
        n == name.len() || name[n] == 0,
    ensures
        stored_name_len(name) == n,
    decreases name.len(),
{
    if name.len() > 0 && name[0] != 0 {
        lemma_stored_name_len(name.drop_first(), n - 1);
    }
}

/// The listing of a shorter prefix is a prefix of the listing of a longer one.
proof fn lemma_listing_prefix(dir: Seq<DirEntry>, j: int, k: int)
    requires
        0 <= j <= k <= dir.len(),
    ensures
        listing(dir.take(j)).len() <= listing(dir.take(k)).len(),
        listing(dir.take(k)).take(listing(dir.take(j)).len() as int) == listing(dir.take(j)),
    decreases k - j,
{
    if j < k {
        lemma_listing_prefix(dir, j, k - 1);
        let a = listing(dir.take(j));
        let b = listing(dir.take(k - 1));
        assert(dir.take(k).drop_last() =~= dir.take(k - 1));
        assert(listing(dir.take(k)) == b + listing_line(dir.take(k).last()));
        assert(listing(dir.take(k)).take(a.len() as int) =~= b.take(a.len() as int));
    } else {
        assert(listing(dir.take(k)).take(listing(dir.take(j)).len() as int) =~= listing(dir.take(j)));
    }
}

/// Length of the stored name `name`.
fn name_length(name: &[u8; 32]) -> (n: usize)
    ensures
        n == stored_name_len(name@),
        n <= MAX_NAME_LEN,
{
    let mut i: usize = 0;
    while i < MAX_NAME_LEN
        invariant
            i <= MAX_NAME_LEN,
            name@.len() == MAX_NAME_LEN,
            forall|k: int| 0 <= k < i ==> name@[k] != 0,
        decreases MAX_NAME_LEN - i,
    {
        if name[i] == 0 {
            proof { lemma_stored_name_len(name@, i as int); }
            return i;
        }
        i += 1;
    }
    proof { lemma_stored_name_len(name@, MAX_NAME_LEN as int); }
    MAX_NAME_LEN
}

/// The filesystem: the directory and the open-file table of each process.
pub struct FileSystem {
    dir: Vec<DirEntry>,
    open_files: Vec<Vec<OpenFile>>,
}

impl FileSystem {
    /// The directory.
    pub closed spec fn dir(&self) -> Seq<DirEntry> {
        self.dir@
    }

    /// Descriptor `fd` of process slot `pid`.
    pub closed spec fn fd(&self, pid: int, fd: int) -> OpenFile {
        self.open_files@[pid]@[fd]
    }

    /// One descriptor table of `MAX_FDS` entries per process slot, and every
    /// open descriptor refers to a directory entry.
    pub closed spec fn wf(&self) -> bool {
        &&& self.dir@.len() == MAX_FILES
        &&& self.open_files@.len() == MAX_PROCESSES
        &&& forall|p: int| 0 <= p < MAX_PROCESSES ==> (#[trigger] self.open_files@[p])@.len() == MAX_FDS
        &&& forall|p: int, f: int| 0 <= p < MAX_PROCESSES && 0 <= f < MAX_FDS ==>
            ((#[trigger] self.open_files@[p]@[f]).file_id matches Some(id) ==> id < MAX_FILES)
    }

    /// A well-formed filesystem has `MAX_FILES` directory entries.
    pub proof fn lemma_dir_len(&self)
        requires
            self.wf(),
        ensures
            self.dir().len() == MAX_FILES,
    {
    }

    /// The built-in directory with every descriptor free.
    pub fn new() -> (fs: Self)
        ensures
            fs.wf(),
            builtin_directory(fs.dir()),
            forall|p: int, f: int| 0 <= p < MAX_PROCESSES && 0 <= f < MAX_FDS ==> #[trigger] fs.fd(p, f) == (OpenFile { file_id: None, pos: 0 }),
    {
        let closed = OpenFile { file_id: None, pos: 0 };
        let mut open_files: Vec<Vec<OpenFile>> = Vec::new();
        let mut p: usize = 0;
        while p < MAX_PROCESSES
            invariant
                p <= MAX_PROCESSES,
                open_files@.len() == p,
                forall|q: int| 0 <= q < p ==> (#[trigger] open_files@[q])@ == Seq::new(MAX_FDS as nat, |f: int| closed),
            decreases MAX_PROCESSES - p,
        {
            let row = vec![closed; MAX_FDS];
            assert(row@ =~= Seq::new(MAX_FDS as nat, |f: int| closed));
            open_files.push(row);
            p += 1;
        }
        FileSystem { dir: build_dir_table(), open_files }
    }

    /// The data of the file that descriptor `fd` of process `pid` has open.
    pub open spec fn open_data(&self, pid: int, fd: int) -> Option<Seq<u8>> {
        match self.fd(pid, fd).file_id {
            None => None,
            Some(id) => match self.dir()[id as int].data {
                None => None,
                Some(d) => Some(d@),
            },
        }
    }

    /// Replace descriptor `fd` of process `pid`.
    fn set_fd(&mut self, pid: usize, fd: usize, of: OpenFile)
        requires
            old(self).wf(),
            pid < MAX_PROCESSES,
            fd < MAX_FDS,
            of.file_id matches Some(id) ==> id < MAX_FILES,
        ensures
            final(self).wf(),
            final(self).dir() == old(self).dir(),
            final(self).fd(pid as int, fd as int) == of,
            forall|p: int, f: int| 0 <= p < MAX_PROCESSES && 0 <= f < MAX_FDS && !(p == pid && f == fd)
                ==> #[trigger] final(self).fd(p, f) == old(self).fd(p, f),
    {
        let mut row = self.open_files[pid].clone();
        row.set(fd, of);
        self.open_files.set(pid, row);
    }

    /// Read from descriptor `fd` of process `pid` into `buf`, from its
    /// cursor: as many bytes as fit and remain; the cursor advances by the
    /// count, which is returned. `None`, changing nothing, when `pid` is not
    /// a process slot or the descriptor is not open.
    pub fn read(&mut self, pid: u16, fd: usize, buf: &mut [u8]) -> (r: Option<usize>)
        requires
            old(self).wf(),
        ensures
            final(self).wf(),
            final(self).dir() == old(self).dir(),
            final(buf)@.len() == old(buf)@.len(),
            (pid >= MAX_PROCESSES || fd >= MAX_FDS || old(self).open_data(pid as int, fd as int) is None) ==>
                r is None && *final(self) == *old(self) && final(buf)@ == old(buf)@,
            pid < MAX_PROCESSES && fd < MAX_FDS && old(self).open_data(pid as int, fd as int) is Some ==> {
                let data = old(self).open_data(pid as int, fd as int)->0;
                let pos = old(self).fd(pid as int, fd as int).pos;
                let remaining = if pos < data.len() { data.len() - pos } else { 0 };
                let n = if old(buf)@.len() < remaining { old(buf)@.len() as int } else { remaining };
                &&& r == Some(n as usize)
                &&& final(buf)@ == if n == 0 { old(buf)@ } else {
                        data.subrange(pos as int, pos + n) + old(buf)@.subrange(n, old(buf)@.len() as int)
                    }
                &&& final(self).fd(pid as int, fd as int) == (OpenFile { pos: (pos + n) as usize, ..old(self).fd(pid as int, fd as int) })
                &&& forall|p: int, f: int| 0 <= p < MAX_PROCESSES && 0 <= f < MAX_FDS && !(p == pid && f == fd)
                        ==> #[trigger] final(self).fd(p, f) == old(self).fd(p, f)
            },
    {
        let pid_idx = pid as usize;
        if pid_idx >= MAX_PROCESSES || fd >= MAX_FDS {
            return None;
        }
        let slot = self.open_files[pid_idx][fd];
        let file_id = match slot.file_id {
            Some(id) => id,
            None => { return None; },
        };
        let data = match &self.dir[file_id].data {
            Some(d) => d,
            None => { return None; },
        };
        let remaining = if slot.pos < data.len() { data.len() - slot.pos } else { 0 };
        let to_copy = if buf.len() < remaining { buf.len() } else { remaining };
        let start: usize = slot.pos;
        assert(to_copy == 0 || start + to_copy <= data.len());
        assert(old(self).open_data(pid as int, fd as int) == Some(data@));
        let mut i: usize = 0;
        while i < to_copy
            invariant
                to_copy <= buf@.len(),
                start == slot.pos,
                to_copy == 0 || start + to_copy <= data.len(),
                buf@.len() == old(buf)@.len(),
                i <= to_copy,
                forall|k: int| 0 <= k < buf@.len() ==> #[trigger] buf@[k] ==
                    if k < i { data@[slot.pos + k] } else { old(buf)@[k] },
            decreases to_copy - i,
        {
            buf[i] = data[start + i];
            i += 1;
        }
        let new_pos = start + to_copy;
        self.set_fd(pid_idx, fd, OpenFile { file_id: slot.file_id, pos: new_pos });
        if to_copy > 0 {
            assert(buf@ =~= old(self).open_data(pid as int, fd as int)->0.subrange(start as int, start + to_copy)
                + old(buf)@.subrange(to_copy as int, old(buf)@.len() as int));
        } else {
            assert(buf@ =~= old(buf)@);
        }
        Some(to_copy)
    }

    /// Close descriptor `fd` of process `pid`: free it and reset its
    /// cursor. `false`, changing nothing, when `pid` is not a process slot
    /// or the descriptor is not open.
    pub fn close(&mut self, pid: u16, fd: usize) -> (ok: bool)
        requires
            old(self).wf(),
        ensures
            final(self).wf(),
            final(self).dir() == old(self).dir(),
            ok == (pid < MAX_PROCESSES && fd < MAX_FDS && old(self).fd(pid as int, fd as int).file_id is Some),
            !ok ==> *final(self) == *old(self),
            ok ==> final(self).fd(pid as int, fd as int) == (OpenFile { file_id: None, pos: 0 }),
            ok ==> forall|p: int, f: int| 0 <= p < MAX_PROCESSES && 0 <= f < MAX_FDS && !(p == pid && f == fd)
                ==> #[trigger] final(self).fd(p, f) == old(self).fd(p, f),
    {
        let pid_idx = pid as usize;
        if pid_idx >= MAX_PROCESSES || fd >= MAX_FDS {
            return false;
        }
        if self.open_files[pid_idx][fd].file_id.is_some() {
            self.set_fd(pid_idx, fd, OpenFile { file_id: None, pos: 0 });
            true
        } else {
            false
        }
    }

    /// The size of the file open on descriptor `fd` of process `pid`;
    /// `None` when `pid` is not a process slot or the descriptor is not open.
    pub fn file_size(&self, pid: u16, fd: usize) -> (r: Option<usize>)
        requires
            self.wf(),
        ensures
            pid >= MAX_PROCESSES || fd >= MAX_FDS ==> r is None,
            pid < MAX_PROCESSES && fd < MAX_FDS ==> match self.open_data(pid as int, fd as int) {
                None => r is None,
                Some(d) => r matches Some(n) && n == d.len(),
            },
    {
        let pid_idx = pid as usize;
        if pid_idx >= MAX_PROCESSES || fd >= MAX_FDS {
            return None;
        }
        let file_id = match self.open_files[pid_idx][fd].file_id {
            Some(id) => id,
            None => { return None; },
        };
        match &self.dir[file_id].data {
            Some(d) => Some(d.len()),
            None => None,
        }
    }

    /// Copy the beginning of the file open on descriptor `fd` of process
    /// `pid` into `buf` (as much as fits), ignoring and keeping the cursor;
    /// returns the count. `None` when `pid` is not a process slot or the
    /// descriptor is not open.
    pub fn read_all(&self, pid: u16, fd: usize, buf: &mut [u8]) -> (r: Option<usize>)
        requires
            self.wf(),
        ensures
            final(buf)@.len() == old(buf)@.len(),
            (pid >= MAX_PROCESSES || fd >= MAX_FDS || self.open_data(pid as int, fd as int) is None) ==> r is None && final(buf)@ == old(buf)@,
            pid < MAX_PROCESSES && fd < MAX_FDS && self.open_data(pid as int, fd as int) is Some ==> {
                let data = self.open_data(pid as int, fd as int)->0;
                let n = if old(buf)@.len() < data.len() { old(buf)@.len() as int } else { data.len() as int };
                &&& r == Some(n as usize)
                &&& final(buf)@ == data.subrange(0, n) + old(buf)@.subrange(n, old(buf)@.len() as int)
            },
    {
        let pid_idx = pid as usize;
        if pid_idx >= MAX_PROCESSES || fd >= MAX_FDS {
            return None;
        }
        let file_id = match self.open_files[pid_idx][fd].file_id {
            Some(id) => id,
            None => { return None; },
        };
        let data = match &self.dir[file_id].data {
            Some(d) => d,
            None => { return None; },
        };
        let to_copy = if buf.len() < data.len() { buf.len() } else { data.len() };
        let mut i: usize = 0;
        while i < to_copy
            invariant
                to_copy <= buf@.len(),
                to_copy <= data@.len(),
                buf@.len() == old(buf)@.len(),
                i <= to_copy,
                forall|k: int| 0 <= k < buf@.len() ==> #[trigger] buf@[k] == if k < i { data@[k] } else { old(buf)@[k] },
            decreases to_copy - i,
        {
            buf[i] = data[i];
            i += 1;
        }
        assert(buf@ =~= self.open_data(pid as int, fd as int)->0.subrange(0, to_copy as int)
            + old(buf)@.subrange(to_copy as int, old(buf)@.len() as int));
        Some(to_copy)
    }

    /// Write the listing of the directory (see `listing`) into `buf`, as
    /// much of it as fits, and return the number of bytes written: the
    /// listing's length when it fits, `buf.len()` otherwise.
    pub fn list(&self, buf: &mut [u8]) -> (r: usize)
        requires
            self.wf(),
            old(buf)@.len() < usize::MAX,
        ensures
            final(buf)@.len() == old(buf)@.len(),
            listing(self.dir()).len() <= old(buf)@.len() ==> {
                &&& r == listing(self.dir()).len()
                &&& final(buf)@ == listing(self.dir()) + old(buf)@.subrange(listing(self.dir()).len() as int, old(buf)@.len() as int)
            },
            listing(self.dir()).len() > old(buf)@.len() ==> {
                &&& final(buf)@ == listing(self.dir()).take(old(buf)@.len() as int)
                &&& r == old(buf)@.len()
            },
    {
        let cap = buf.len();
        let mut written: usize = 0;
        let mut i: usize = 0;
        proof {
            assert(self.dir().take(0) =~= Seq::<DirEntry>::empty());
        }
        while i < MAX_FILES
            invariant
                self.wf(),
                cap == buf@.len(),
                cap == old(buf)@.len(),
                cap < usize::MAX,
                i <= MAX_FILES,
                written == listing(self.dir().take(i as int)).len(),
                written <= cap,
                forall|k: int| 0 <= k < cap ==> #[trigger] buf@[k] ==
                    if k < written { listing(self.dir().take(i as int))[k] } else { old(buf)@[k] },
            decreases MAX_FILES - i,
        {
            let entry = &self.dir[i];
            let ghost dir = self.dir();
            let ghost before = listing(dir.take(i as int));
            proof {
                assert(dir.take(i + 1).drop_last() =~= dir.take(i as int));
                assert(dir.take(i + 1).last() == dir[i as int]);
                assert(listing(dir.take(i + 1)) == before + listing_line(dir[i as int]));
                lemma_listing_prefix(dir, i + 1, MAX_FILES as int);
                assert(dir.take(MAX_FILES as int) =~= dir);
            }
            if entry.data.is_some() {
                let name_len = name_length(&entry.name);
                let ghost line = listing_line(dir[i as int]);
                assert(line =~= entry.name@.take(name_len as int).push(0u8));
                let room = cap - written;
                if room == 0 {
                    proof {
                        let l = listing(dir);
                        assert(l.take(cap as int) =~= l.take(listing(dir.take(i + 1)).len() as int).take(cap as int));
                        assert(buf@ =~= l.take(cap as int));
                    }
                    return written;
                }
                if room <= name_len {
                    let mut j: usize = 0;
                    while j < room
                        invariant
                            cap == buf@.len(),
                            cap == old(buf)@.len(),
                            written + room == cap,
                            room <= name_len,
                            name_len <= MAX_NAME_LEN,
                            entry.name@.len() == MAX_NAME_LEN,
                            j <= room,
                            forall|k: int| 0 <= k < cap ==> #[trigger] buf@[k] ==
                                if k < written { before[k] }
                                else if k < written + j { entry.name@[k - written] }
                                else { old(buf)@[k] },
                        decreases room - j,
                    {
                        buf[written + j] = entry.name[j];
                        j += 1;
                    }
                    proof {
                        let l = listing(dir);
                        let full = listing(dir.take(i + 1));
                        assert(l.take(cap as int) =~= l.take(full.len() as int).take(cap as int));
                        assert(buf@ =~= l.take(cap as int));
                    }
                    return cap;
                }
                let mut j: usize = 0;
                while j < name_len
                    invariant
                        cap == buf@.len(),
                        cap == old(buf)@.len(),
                        written + name_len < cap,
                        name_len <= MAX_NAME_LEN,
                        entry.name@.len() == MAX_NAME_LEN,
                        j <= name_len,
                        forall|k: int| 0 <= k < cap ==> #[trigger] buf@[k] ==
                            if k < written { before[k] }
                            else if k < written + j { entry.name@[k - written] }
                            else { old(buf)@[k] },
                    decreases name_len - j,
                {
                    buf[written + j] = entry.name[j];
                    j += 1;
                }
                buf[written + name_len] = 0u8;
                written = written + name_len + 1;
                assert forall|k: int| 0 <= k < cap implies #[trigger] buf@[k] ==
                    if k < written { listing(dir.take(i + 1))[k] } else { old(buf)@[k] } by {}
            } else {
                assert(listing(dir.take(i + 1)) =~= before);
            }
            i += 1;
        }
        proof {
            assert(self.dir().take(MAX_FILES as int) =~= self.dir());
            let l = listing(self.dir());
            assert(buf@ =~= l + old(buf)@.subrange(l.len() as int, cap as int));
        }
        written
    }

    /// Find the directory index of `name` (see `spec_find_file`).
    pub fn find_file(&self, name: &str) -> (r: Option<usize>)
        requires
            self.wf(),
        ensures
            r matches Some(i) ==> spec_find_file(self.dir(), name.spec_bytes()) == Some(i as int),
            r is None ==> spec_find_file(self.dir(), name.spec_bytes()) is None,
    {
        let normalized = normalize_name(name);
        let mut i: usize = 0;
        while i < MAX_FILES
            invariant
                self.wf(),
                normalized@ == spec_normalize(name.spec_bytes()),
                i <= MAX_FILES,
                forall|j: int| 0 <= j < i ==> !#[trigger] names_file(self.dir(), j, normalized@),
            decreases MAX_FILES - i,
        {
            let entry = &self.dir[i];
            if entry.data.is_some() && names_equal(&entry.name, &normalized) {
                proof {
                    let n = spec_normalize(name.spec_bytes());
                    assert(names_file(self.dir(), i as int, n));
                    let c = choose|k: int| names_file(self.dir(), k, n)
                        && forall|j: int| 0 <= j < k ==> !#[trigger] names_file(self.dir(), j, n);
                    assert(c == i) by {
                        if c < i { assert(!names_file(self.dir(), c, n)); }
                        if i < c { assert(!names_file(self.dir(), i as int, n)); }
                    }
                }
                return Some(i);
            }
            i += 1;
        }
        None
    }

    /// Open `name` for process `pid`: take its first free descriptor, with
    /// the cursor at 0. `None`, changing nothing, when the file does not
    /// exist, `pid` is not a process slot or every descriptor is in use.
    pub fn open(&mut self, pid: u16, name: &str) -> (r: Option<usize>)
        requires
            old(self).wf(),
        ensures
            final(self).wf(),
            final(self).dir() == old(self).dir(),
            r is None ==> *final(self) == *old(self),
            r is None ==> spec_find_file(old(self).dir(), name.spec_bytes()) is None || pid >= MAX_PROCESSES
                || forall|f: int| 0 <= f < MAX_FDS ==> (#[trigger] old(self).fd(pid as int, f)).file_id is Some,
            r matches Some(fd) ==> {
                &&& pid < MAX_PROCESSES
                &&& spec_find_file(old(self).dir(), name.spec_bytes()) is Some
                &&& fd < MAX_FDS
                &&& old(self).fd(pid as int, fd as int).file_id is None
                &&& forall|f: int| 0 <= f < fd ==> (#[trigger] old(self).fd(pid as int, f)).file_id is Some
                &&& final(self).fd(pid as int, fd as int) == (OpenFile {
                        file_id: Some(spec_find_file(old(self).dir(), name.spec_bytes())->0 as usize), pos: 0 })
                &&& forall|p: int, f: int| 0 <= p < MAX_PROCESSES && 0 <= f < MAX_FDS && !(p == pid && f == fd)
                        ==> #[trigger] final(self).fd(p, f) == old(self).fd(p, f)
            },
    {
        let file_id = match self.find_file(name) {
            Some(id) => id,
            None => { return None; },
        };
        let pid_idx = pid as usize;
        if pid_idx >= MAX_PROCESSES {
            return None;
        }
        let mut fd: usize = 0;
        while fd < MAX_FDS
            invariant
                self.wf(),
                *self == *old(self),
                pid_idx < MAX_PROCESSES,
                pid_idx == pid,
                file_id < MAX_FILES,
                spec_find_file(old(self).dir(), name.spec_bytes()) == Some(file_id as int),
                fd <= MAX_FDS,
                forall|f: int| 0 <= f < fd ==> (#[trigger] self.fd(pid as int, f)).file_id is Some,
            decreases MAX_FDS - fd,
        {
            if self.open_files[pid_idx][fd].file_id.is_none() {
                let mut row = self.open_files[pid_idx].clone();
                row.set(fd, OpenFile { file_id: Some(file_id), pos: 0 });
                self.open_files.set(pid_idx, row);
                return Some(fd);
            }
            fd += 1;
        }
        None
    }
}

/// Whether two stored names are equal.
fn names_equal(a: &[u8; 32], b: &[u8; 32]) -> (r: bool)
    ensures
        r == (a@ == b@),
{
    let mut i: usize = 0;
    while i < MAX_NAME_LEN
        invariant
            i <= MAX_NAME_LEN,
            a@.len() == MAX_NAME_LEN,
            b@.len() == MAX_NAME_LEN,
            forall|k: int| 0 <= k < i ==> a@[k] == b@[k],
        decreases MAX_NAME_LEN - i,
    {
        if a[i] != b[i] {
            return false;
        }
        i += 1;
    }
    assert(a@ =~= b@);
    true
}

/// A descriptor that `open` of `name` has just set up (the file's index,
/// cursor 0) reads that file's data.
pub proof fn law_opened_descriptor_reads_file(fs: &FileSystem, pid: int, fd: int, name: Seq<u8>)
    requires
        fs.wf(),
        0 <= pid < MAX_PROCESSES,
        0 <= fd < MAX_FDS,
        spec_find_file(fs.dir(), name) is Some,
        fs.fd(pid, fd) == (OpenFile { file_id: Some(spec_find_file(fs.dir(), name)->0 as usize), pos: 0 }),
    ensures
        ({
            let i = spec_find_file(fs.dir(), name)->0;
            &&& fs.dir()[i].name@ == spec_normalize(name)
            &&& fs.dir()[i].data is Some
            &&& fs.open_data(pid, fd) == Some(fs.dir()[i].data->0@)
        }),
{
    lemma_find_file(fs.dir(), name);
    fs.lemma_dir_len();
}

} // verus!
