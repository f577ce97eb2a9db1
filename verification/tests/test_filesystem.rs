use kernel::block_dev::{RamDisk, BLOCK_SIZE, DISK_BYTES, NUM_BLOCKS};
use kernel::filesystem::{build_dir_table, normalize_name, FileSystem, BOOT_INFO, HELLO_TXT, MAX_FDS, README_TXT};

#[test]
fn test_open_read_close() {
    let mut fs = FileSystem::new();
    let fd = fs.open(0, "hello.txt").unwrap();
    assert_eq!(fd, 0);
    let mut buf = [0u8; 5];
    assert_eq!(fs.read(0, fd, &mut buf), Some(5));
    assert_eq!(&buf, b"Hello");
    assert_eq!(fs.read(0, fd, &mut buf), Some(5));
    assert_eq!(&buf, b" from");
    assert_eq!(fs.file_size(0, fd), Some(HELLO_TXT.len()));
    assert!(fs.close(0, fd));
    assert!(!fs.close(0, fd));
    assert_eq!(fs.read(0, fd, &mut buf), None);
}

#[test]
fn test_read_to_end() {
    let mut fs = FileSystem::new();
    let fd = fs.open(3, "boot.cfg").unwrap();
    let mut buf = vec![0u8; 1000];
    let n = fs.read(3, fd, &mut buf).unwrap();
    assert_eq!(n, BOOT_INFO.len());
    assert_eq!(&buf[..n], BOOT_INFO.as_bytes());
    assert_eq!(fs.read(3, fd, &mut buf), Some(0));
}

#[test]
fn test_open_failures() {
    let mut fs = FileSystem::new();
    assert_eq!(fs.open(0, "missing"), None);
    assert_eq!(fs.open(8, "README"), None);
    for i in 0..MAX_FDS {
        assert_eq!(fs.open(1, "README"), Some(i));
    }
    assert_eq!(fs.open(1, "README"), None);
    // Another process has its own descriptors.
    assert_eq!(fs.open(2, "README"), Some(0));
}

#[test]
fn test_long_name_truncated() {
    let mut fs = FileSystem::new();
    assert_eq!(fs.find_file("hello.txt"), Some(0));
    assert_eq!(fs.find_file("README"), Some(1));
    assert_eq!(fs.find_file("boot.cfg"), Some(2));
    assert_eq!(fs.find_file(""), None);
    let n = normalize_name("abcdefghijklmnopqrstuvwxyz0123456789");
    assert_eq!(n[30], b'4');
    assert_eq!(n[31], 0);
    assert_eq!(fs.open(0, "abcdefghijklmnopqrstuvwxyz0123456789"), None);
}

#[test]
fn test_read_all_keeps_cursor() {
    let mut fs = FileSystem::new();
    let fd = fs.open(0, "README").unwrap();
    let mut small = [0u8; 7];
    assert_eq!(fs.read_all(0, fd, &mut small), Some(7));
    assert_eq!(&small, b"LearnOS");
    let mut big = vec![0u8; 4096];
    assert_eq!(fs.read_all(0, fd, &mut big), Some(README_TXT.len()));
    let mut first = [0u8; 3];
    assert_eq!(fs.read(0, fd, &mut first), Some(3));
    assert_eq!(&first, b"Lea");
    assert_eq!(fs.read_all(0, 7, &mut small), None);
    assert_eq!(fs.file_size(9, 0), None);
}

#[test]
fn test_list() {
    let fs = FileSystem::new();
    let mut buf = [0u8; 32];
    let n = fs.list(&mut buf);
    assert_eq!(n, 26);
    assert_eq!(&buf[..n], b"hello.txt\0README\0boot.cfg\0");
    assert_eq!(&buf[26..], &[0u8; 6]);
    let mut exact = [9u8; 10];
    assert_eq!(fs.list(&mut exact), 10);
    assert_eq!(&exact, b"hello.txt\0");
    let mut cut = [0u8; 5];
    assert_eq!(fs.list(&mut cut), 5);
    assert_eq!(&cut, b"hello");
    let mut empty: [u8; 0] = [];
    assert_eq!(fs.list(&mut empty), 0);
}

#[test]
fn test_invalid_descriptor() {
    let mut fs = FileSystem::new();
    let mut buf = [0u8; 4];
    assert_eq!(fs.read(0, 8, &mut buf), None);
    assert_eq!(fs.read(0, 1000, &mut buf), None);
    assert!(!fs.close(0, 8));
    assert_eq!(fs.file_size(0, 9), None);
    assert_eq!(fs.read_all(0, 9, &mut buf), None);
}

#[test]
fn test_build_dir_table() {
    let dir = build_dir_table();
    assert_eq!(dir.len(), 16);
    assert_eq!(&dir[1].name[..6], b"README");
    assert_eq!(dir[1].name[6], 0);
    assert_eq!(dir[0].data.as_ref().unwrap().as_slice(), HELLO_TXT.as_bytes());
    assert!(dir[3].data.is_none());
}

#[test]
fn test_ramdisk_init_and_read() {
    let mut disk = RamDisk::new();
    disk.init();
    let mut buf = [0u8; 5];
    assert_eq!(disk.read_bytes(0, &mut buf), 5);
    assert_eq!(&buf, b"Hello");
    let mut next = [0u8; 7];
    assert_eq!(disk.read_bytes(HELLO_TXT.len(), &mut next), 7);
    assert_eq!(&next, b"LearnOS");
    let mut block = [0u8; 512];
    assert!(disk.read_block(0, &mut block));
    assert_eq!(&block[..5], b"Hello");
}

#[test]
fn test_ramdisk_block_write_read() {
    let mut disk = RamDisk::new();
    let mut data = [0u8; 512];
    for (i, b) in data.iter_mut().enumerate() {
        *b = (i % 251) as u8;
    }
    assert!(disk.write_block(3, &data));
    let mut back = [0u8; 512];
    assert!(disk.read_block(3, &mut back));
    assert_eq!(back, data);
    assert!(disk.read_block(4, &mut back));
    assert_eq!(back, [0u8; 512]);
    assert!(!disk.write_block(NUM_BLOCKS, &data));
    assert!(!disk.read_block(NUM_BLOCKS, &mut back));
    // Bytes across the boundary of blocks 3 and 4.
    let mut across = [9u8; 4];
    assert_eq!(disk.read_bytes(3 * BLOCK_SIZE + 510, &mut across), 4);
    assert_eq!(across, [8, 9, 0, 0]);
}

#[test]
fn test_ramdisk_read_at_end() {
    let disk = RamDisk::new();
    let mut buf = [7u8; 5];
    assert_eq!(disk.read_bytes(DISK_BYTES - 2, &mut buf), 2);
    assert_eq!(buf, [0, 0, 7, 7, 7]);
    assert_eq!(disk.read_bytes(DISK_BYTES, &mut buf), 0);
}
