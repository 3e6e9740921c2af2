use redoxfs::attr::{attr_of, block_inode, inode_block, Attr, FileKind};
use redoxfs::disk::{Disk, MemDisk};
use redoxfs::error::{self, Error};
use redoxfs::flag;
use redoxfs::fs::FileSystem;
use redoxfs::header::{Header, SIGNATURE, VERSION};
use redoxfs::node::{bytes_eq, Extent, Node};

#[test]
fn error_numbers_are_those_of_posix() {
    let all = [
        (Error::NotFound, syscall::ENOENT),
        (Error::Io, syscall::EIO),
        (Error::BadFile, syscall::EBADF),
        (Error::Exists, syscall::EEXIST),
        (Error::NotDir, syscall::ENOTDIR),
        (Error::IsDir, syscall::EISDIR),
        (Error::Invalid, syscall::EINVAL),
        (Error::NoSpace, syscall::ENOSPC),
        (Error::NotEmpty, syscall::ENOTEMPTY),
    ];
    for (e, n) in all {
        assert_eq!(e.errno(), n);
        assert_eq!(Error::from_errno(n), Some(e));
    }
    assert_eq!(Error::from_errno(0), None);
    assert_eq!(Error::from_errno(1), None);
    assert_eq!(error::ENOENT, 2);
    assert_eq!(error::ENOTEMPTY, 39);
}

#[test]
fn flags_are_those_of_the_system_interface() {
    assert_eq!(flag::O_RDONLY, syscall::O_RDONLY);
    assert_eq!(flag::O_WRONLY, syscall::O_WRONLY);
    assert_eq!(flag::O_RDWR, syscall::O_RDWR);
    assert_eq!(flag::O_ACCMODE, syscall::O_ACCMODE);
    assert_eq!(flag::F_GETFL, syscall::F_GETFL);
    assert_eq!(flag::F_SETFL, syscall::F_SETFL);
    assert_eq!(flag::SEEK_SET, syscall::SEEK_SET);
    assert_eq!(flag::SEEK_CUR, syscall::SEEK_CUR);
    assert_eq!(flag::SEEK_END, syscall::SEEK_END);
    assert_eq!(flag::MODE_TYPE, syscall::MODE_TYPE as u32);
    assert_eq!(flag::MODE_DIR, syscall::MODE_DIR as u32);
    assert_eq!(flag::MODE_FILE, syscall::MODE_FILE as u32);
    assert_eq!(flag::MODE_SYMLINK, syscall::MODE_SYMLINK as u32);
    assert_eq!(flag::MODE_PERM, syscall::MODE_PERM as u32);
    assert_eq!(flag::BLOCK_SIZE, 512);
}

#[test]
fn the_header_is_read_as_it_was_written() {
    let h = Header::new(1 << 20, 3, 4);
    assert_eq!(h.signature, SIGNATURE);
    assert_eq!(h.version, VERSION);
    assert!(h.valid());
    let bytes = h.encode();
    assert_eq!(&bytes[..8], b"RedoxFS\0");
    assert!(bytes[40..].iter().all(|b| *b == 0));
    assert_eq!(Header::decode(&bytes), h);
    let mut other = bytes;
    other[0] = b'r';
    assert!(!Header::decode(&other).valid());
    assert!(!Header { version: 2, ..h }.valid());
}

#[test]
fn a_record_is_read_as_it_was_written() {
    let mut n = Node::new(flag::MODE_FILE | 0o640, b"name", 17, 1, 2, 3, 4);
    n.mtime = 5;
    n.mtime_nsec = 6;
    n.next = 99;
    for j in 0..16 {
        n.extents[j] = Extent { start: 100 + j as u64, length: 7 * j as u64 };
    }
    let bytes = n.encode();
    assert_eq!(bytes[0], 4);
    assert_eq!(&bytes[1..5], b"name");
    assert!(bytes[5..204].iter().all(|b| *b == 0));
    assert_eq!(&bytes[204..208], &(flag::MODE_FILE | 0o640).to_le_bytes());
    assert_eq!(&bytes[208..212], &1u32.to_le_bytes());
    assert_eq!(&bytes[212..216], &2u32.to_le_bytes());
    assert_eq!(&bytes[216..224], &3u64.to_le_bytes());
    assert_eq!(&bytes[224..228], &4u32.to_le_bytes());
    assert_eq!(&bytes[228..236], &5u64.to_le_bytes());
    assert_eq!(&bytes[236..240], &6u32.to_le_bytes());
    assert_eq!(&bytes[240..248], &17u64.to_le_bytes());
    assert_eq!(&bytes[248..256], &99u64.to_le_bytes());
    assert_eq!(&bytes[256 + 16 * 3..264 + 16 * 3], &103u64.to_le_bytes());
    assert_eq!(&bytes[264 + 16 * 3..272 + 16 * 3], &21u64.to_le_bytes());
    let back = Node::decode(&bytes);
    assert_eq!(back.name(), b"name");
    assert_eq!(back.mode, n.mode);
    assert_eq!((back.uid, back.gid), (1, 2));
    assert_eq!((back.ctime, back.ctime_nsec, back.mtime, back.mtime_nsec), (3, 4, 5, 6));
    assert_eq!((back.parent, back.next), (17, 99));
    assert_eq!(back.extents, n.extents);
    let copy = back.clone();
    assert_eq!(copy.name(), b"name");
    assert_eq!(copy.extents, n.extents);
}

#[test]
fn a_record_of_any_bytes_has_a_name_that_fits() {
    let n = Node::decode(&[0xffu8; 512]);
    assert_eq!(n.name().len(), 203);
    assert_eq!(n.mode, u32::MAX);
    assert_eq!(n.next, u64::MAX);
    let blank = Node::blank();
    assert_eq!(blank.name().len(), 0);
    assert_eq!(blank.encode(), [0u8; 512]);
}

#[test]
fn kinds_come_from_the_mode() {
    let d = Node::new(flag::MODE_DIR | 0o755, b"d", 0, 0, 0, 0, 0);
    let f = Node::new(flag::MODE_FILE | 0o755, b"f", 0, 0, 0, 0, 0);
    let l = Node::new(flag::MODE_SYMLINK, b"l", 0, 0, 0, 0, 0);
    assert!(d.is_dir() && !d.is_file());
    assert!(f.is_file() && !f.is_dir());
    assert!(!l.is_file() && !l.is_dir());
}

#[test]
fn an_extent_takes_the_blocks_its_bytes_need() {
    for (length, blocks) in [(0u64, 0u64), (1, 1), (511, 1), (512, 1), (513, 2), (1024, 2), (u64::MAX, 1 << 55)] {
        assert_eq!(Extent { start: 9, length }.blocks(), blocks);
    }
    assert_eq!(Extent::empty(), Extent { start: 0, length: 0 });
    assert!(bytes_eq(b"abc", b"abc"));
    assert!(!bytes_eq(b"abc", b"abd"));
    assert!(!bytes_eq(b"abc", b"ab"));
}

#[test]
fn a_memory_disk_holds_what_was_written() {
    let mut d = MemDisk::new(4);
    assert_eq!(d.blocks(), 4);
    let mut block = [0u8; 512];
    block[5] = 7;
    assert_eq!(d.write(2, &block), Ok(()));
    assert_eq!(d.write(4, &block), Err(Error::Io));
    let mut back = [1u8; 512];
    assert_eq!(d.read(2, &mut back), Ok(()));
    assert_eq!(back, block);
    assert_eq!(d.read(3, &mut back), Ok(()));
    assert_eq!(back, [0u8; 512]);
    assert_eq!(d.read(4, &mut back), Err(Error::Io));
}

#[test]
fn inode_numbers_count_from_the_root() {
    assert_eq!(block_inode(3, 3), Some(1));
    assert_eq!(block_inode(3, 10), Some(8));
    assert_eq!(block_inode(3, 2), Some(0));
    assert_eq!(block_inode(3, 1), None);
    assert_eq!(block_inode(0, 0), Some(1));
    assert_eq!(block_inode(0, u64::MAX), None);
    assert_eq!(inode_block(3, 1), Some(3));
    assert_eq!(inode_block(3, 8), Some(10));
    assert_eq!(inode_block(3, 0), Some(2));
    assert_eq!(inode_block(0, 0), None);
    assert_eq!(inode_block(3, u64::MAX), None);
    for block in [2u64, 3, 4, 100, u64::MAX] {
        let ino = block_inode(3, block).unwrap();
        assert_eq!(inode_block(3, ino), Some(block));
    }
}

#[test]
fn attributes_are_the_same_for_all_but_size_and_kind() {
    let f = Node::new(flag::MODE_FILE, b"f", 3, 5, 6, 7, 8);
    assert_eq!(
        attr_of(4, &f, 1000),
        Attr {
            ino: 4,
            size: 1000,
            blocks: 2,
            time_sec: 0,
            time_nsec: 0,
            kind: FileKind::RegularFile,
            perm: 0o777,
            nlink: 1,
            uid: 0,
            gid: 0,
            rdev: 0,
            flags: 0,
        }
    );
    let d = Node::new(flag::MODE_DIR, b"d", 3, 5, 6, 7, 8);
    assert_eq!(attr_of(1, &d, 0).kind, FileKind::Directory);
    assert_eq!(attr_of(1, &d, 0).blocks, 0);
    assert_eq!(attr_of(1, &d, 1024).blocks, 2);
    assert_eq!(attr_of(1, &d, u64::MAX).blocks, 1 << 55);
}

#[test]
fn a_host_sees_nodes_listings_and_space() {
    let mut fs = FileSystem::create(MemDisk::new(128), 0, 0).unwrap();
    let root = fs.header.root;
    let (d, _) = fs.create_node(flag::MODE_DIR, b"dir", root, 0, 0, 0, 0).unwrap();
    let (f, _) = fs.create_node(flag::MODE_FILE, b"file", root, 0, 0, 0, 0).unwrap();
    fs.write_node(f, 0, &[1u8; 600], 0, 0).unwrap();
    let a = fs.attr(f).unwrap();
    assert_eq!((a.ino, a.size, a.blocks, a.kind), (f - root + 1, 600, 2, FileKind::RegularFile));
    let a = fs.attr(root).unwrap();
    assert_eq!((a.ino, a.size, a.kind), (1, 16, FileKind::Directory));
    assert!(fs.attr(0).is_err());
    let list = fs.entries(root).unwrap();
    assert_eq!(list.len(), 4);
    assert_eq!((list[0].ino, list[0].offset, list[0].kind, list[0].name.as_slice()), (1, 0, FileKind::Directory, &b"."[..]));
    assert_eq!((list[1].ino, list[1].offset, list[1].kind, list[1].name.as_slice()), (1, 1, FileKind::Directory, &b".."[..]));
    assert_eq!((list[2].ino, list[2].offset, list[2].kind, list[2].name.as_slice()), (d - root + 1, 2, FileKind::Directory, &b"dir"[..]));
    assert_eq!((list[3].ino, list[3].offset, list[3].kind, list[3].name.as_slice()), (f - root + 1, 3, FileKind::RegularFile, &b"file"[..]));
    assert_eq!(fs.entries(f).err(), Some(Error::NotDir));
    let s = fs.statfs().unwrap();
    assert_eq!(s.blocks, 128);
    // 123 blocks behind the free list's record, less two nodes, the root's
    // block of entries and two blocks of the file
    assert_eq!(s.bfree, 118);
    assert_eq!(s.bavail, 118);
    assert_eq!((s.files, s.ffree, s.bsize, s.namelen), (0, 0, 512, 256));
}

#[test]
fn a_host_works_by_inode_number() {
    let mut fs = FileSystem::create(MemDisk::new(128), 0, 0).unwrap();
    let a = fs.make(flag::MODE_FILE, 1, b"a", 7, 8, 1, 2).unwrap();
    assert_eq!((a.size, a.blocks, a.kind), (0, 0, FileKind::RegularFile));
    assert_eq!((a.perm, a.nlink, a.uid, a.gid), (0o777, 1, 0, 0));
    let block = inode_block(3, a.ino).unwrap();
    let (found, rec) = fs.find_node(b"a", 3).unwrap();
    assert_eq!(found, block);
    assert_eq!((rec.uid, rec.gid, rec.ctime, rec.ctime_nsec), (7, 8, 1, 2));
    assert_eq!(fs.lookup(1, b"a"), Ok(a));
    fs.write_node(block, 0, &[0x41; 10], 0, 0).unwrap();
    let seen = fs.lookup(1, b"a").unwrap();
    assert_eq!((seen.ino, seen.size, seen.blocks), (a.ino, 10, 1));
    assert_eq!(fs.getattr(a.ino), Ok(seen));
    assert_eq!(fs.getattr(1).map(|r| (r.ino, r.kind)), Ok((1, FileKind::Directory)));
    assert_eq!(fs.lookup(1, b"A"), Err(Error::NotFound));
    assert_eq!(fs.lookup(a.ino, b"x"), Err(Error::NotDir));
    assert_eq!(fs.make(flag::MODE_FILE, 1, b"a", 0, 0, 0, 0), Err(Error::Exists));
    let d = fs.make(flag::MODE_DIR, 1, b"d", 0, 0, 0, 0).unwrap();
    assert_eq!(d.kind, FileKind::Directory);
    fs.make(flag::MODE_FILE, d.ino, b"f", 0, 0, 0, 0).unwrap();
    assert_eq!(fs.remove(flag::MODE_DIR, 1, b"d"), Err(Error::NotEmpty));
    assert!(fs.lookup(1, b"d").is_ok());
    assert!(fs.lookup(d.ino, b"f").is_ok());
    assert_eq!(fs.remove(flag::MODE_FILE, d.ino, b"f"), Ok(()));
    assert_eq!(fs.remove(flag::MODE_DIR, 1, b"d"), Ok(()));
    assert_eq!(fs.remove(flag::MODE_FILE, 1, b"a"), Ok(()));
    assert_eq!(fs.lookup(1, b"a"), Err(Error::NotFound));
    assert_eq!(fs.getattr(u64::MAX), Err(Error::NotFound));
    assert_eq!(fs.lookup(u64::MAX, b"a"), Err(Error::NotFound));
    assert_eq!(fs.make(flag::MODE_FILE, u64::MAX, b"a", 0, 0, 0, 0), Err(Error::NotFound));
    assert_eq!(fs.remove(flag::MODE_FILE, u64::MAX, b"a"), Err(Error::NotFound));
    assert_eq!(fs.free_count(), Ok(123));
}
