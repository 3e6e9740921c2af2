use redoxfs::disk::{Disk, MemDisk};
use redoxfs::error::Error;
use redoxfs::flag::{MODE_DIR, MODE_FILE};
use redoxfs::fs::FileSystem;
use redoxfs::node::{Extent, Node};

const MIB16: usize = 16 * 1024 * 1024 / 512;

fn mkfs(blocks: usize) -> FileSystem<MemDisk> {
    FileSystem::create(MemDisk::new(blocks), 7, 9).unwrap()
}

fn file(fs: &mut FileSystem<MemDisk>, name: &[u8], parent: u64) -> u64 {
    fs.create_node(MODE_FILE | 0o644, name, parent, 0, 0, 1, 2).unwrap().0
}

#[test]
fn create_lays_out_a_fresh_image() {
    let mut fs = mkfs(MIB16);
    assert_eq!(fs.header.root, 3);
    assert_eq!(fs.header.free, 4);
    assert_eq!(fs.header.size, 16 * 1024 * 1024);
    assert_eq!(&fs.disk.data[2][0..8], b"RedoxFS\0");
    assert_eq!(&fs.disk.data[2][8..16], &1u64.to_le_bytes());
    assert_eq!(&fs.disk.data[2][16..24], &(16u64 * 1024 * 1024).to_le_bytes());
    assert_eq!(&fs.disk.data[2][24..32], &3u64.to_le_bytes());
    assert_eq!(&fs.disk.data[2][32..40], &4u64.to_le_bytes());
    assert!(fs.disk.data[0].iter().all(|b| *b == 0));
    assert!(fs.disk.data[1].iter().all(|b| *b == 0));
    let (_, root) = fs.node(3).unwrap();
    assert!(root.is_dir());
    assert_eq!(root.name(), b"root");
    assert_eq!(root.ctime, 7);
    assert_eq!(root.ctime_nsec, 9);
    assert_eq!(fs.node_len(3), Ok(0));
    let (_, free) = fs.node(4).unwrap();
    assert_eq!(free.extents[0], Extent { start: 5, length: 512 * (MIB16 as u64 - 5) });
    assert_eq!(fs.free_count(), Ok(MIB16 as u64 - 5));
}

#[test]
fn create_refuses_a_disk_that_is_too_small() {
    assert!(matches!(FileSystem::create(MemDisk::new(4), 0, 0), Err(Error::NoSpace)));
    assert!(FileSystem::create(MemDisk::new(5), 0, 0).is_ok());
}

#[test]
fn open_checks_the_header() {
    assert!(matches!(FileSystem::open(MemDisk::new(16)), Err(Error::Invalid)));
    assert!(matches!(FileSystem::open(MemDisk::new(2)), Err(Error::Io)));
    let fs = mkfs(64);
    let mut again = FileSystem::open(fs.disk).unwrap();
    assert_eq!(again.header.root, 3);
    assert_eq!(again.header.free, 4);
    assert_eq!(again.free_count(), Ok(59));
    let mut bad = mkfs(64).disk;
    bad.data[2][8] = 2;
    assert!(matches!(FileSystem::open(bad), Err(Error::Invalid)));
}

#[test]
fn create_write_read_remove() {
    let mut fs = mkfs(MIB16);
    let root = fs.header.root;
    let (a, node) = fs.create_node(MODE_FILE, b"a", root, 0, 0, 5, 6).unwrap();
    assert!(node.is_file());
    assert_eq!(fs.write_node(a, 0, &[0x41; 10], 11, 0), Ok(10));
    let mut buf = [0u8; 10];
    assert_eq!(fs.read_node(a, 0, &mut buf), Ok(10));
    assert_eq!(&buf, b"AAAAAAAAAA");
    assert_eq!(fs.remove_node(MODE_FILE, b"a", root), Ok(()));
    assert_eq!(fs.find_node(b"a", root).err(), Some(Error::NotFound));
}

#[test]
fn a_directory_with_a_file_inside() {
    let mut fs = mkfs(MIB16);
    let root = fs.header.root;
    let (d, _) = fs.create_node(MODE_DIR, b"d", root, 0, 0, 1, 0).unwrap();
    fs.create_node(MODE_FILE, b"f", d, 0, 0, 1, 0).unwrap();
    assert_eq!(fs.remove_node(MODE_DIR, b"d", root), Err(Error::NotEmpty));
    assert_eq!(fs.remove_node(MODE_FILE, b"f", d), Ok(()));
    assert_eq!(fs.remove_node(MODE_DIR, b"d", root), Ok(()));
    assert_eq!(fs.find_node(b"d", root).err(), Some(Error::NotFound));
}

#[test]
fn growth_across_extents() {
    let mut fs = mkfs(MIB16);
    let root = fs.header.root;
    let f = file(&mut fs, b"big", root);
    let mut offset = 0u64;
    for step in 0..256u32 {
        let chunk: Vec<u8> = (0..4096u32).map(|i| ((i + step * 7) % 251) as u8).collect();
        assert_eq!(fs.write_node(f, offset, &chunk, 1, 0), Ok(4096));
        offset += 4096;
    }
    assert_eq!(fs.node_len(f), Ok(1024 * 1024));
    let at = |fs: &mut FileSystem<MemDisk>, pos: u64| {
        let mut b = [0u8; 1];
        assert_eq!(fs.read_node(f, pos, &mut b), Ok(1));
        b[0]
    };
    let want = |pos: u64| (((pos % 4096) as u32 + (pos / 4096) as u32 * 7) % 251) as u8;
    for pos in [0u64, 4095, 4096, 1024 * 1024 - 1] {
        assert_eq!(at(&mut fs, pos), want(pos));
    }
    let mut all = vec![0u8; 1024 * 1024];
    assert_eq!(fs.read_node(f, 0, &mut all), Ok(1024 * 1024));
    assert!(all.iter().enumerate().all(|(i, b)| *b == want(i as u64)));
    // more extents than one record holds: the node has further records
    assert_ne!(fs.node(f).unwrap().1.next, 0);
}

#[test]
fn truncate_down() {
    let mut fs = mkfs(MIB16);
    let root = fs.header.root;
    let f = file(&mut fs, b"t", root);
    let data: Vec<u8> = (0..8192u32).map(|i| (i % 253) as u8).collect();
    assert_eq!(fs.write_node(f, 0, &data, 1, 0), Ok(8192));
    let before = fs.free_count().unwrap();
    assert_eq!(fs.node_set_len(f, 4096), Ok(()));
    let mut buf = vec![0u8; 8192];
    assert_eq!(fs.read_node(f, 0, &mut buf), Ok(4096));
    assert_eq!(&buf[..4096], &data[..4096]);
    assert_eq!(fs.free_count(), Ok(before + 8));
}

#[test]
fn a_full_image_refuses_and_keeps_its_free_count() {
    let mut fs = mkfs(16);
    let root = fs.header.root;
    // 11 free blocks: one for the file, one for the root's entries, nine for data
    let f = file(&mut fs, b"fill", root);
    assert_eq!(fs.free_count(), Ok(9));
    assert_eq!(fs.write_node(f, 0, &vec![1u8; 9 * 512], 1, 0), Ok(9 * 512));
    assert_eq!(fs.free_count(), Ok(0));
    assert_eq!(fs.create_node(MODE_FILE, b"more", root, 0, 0, 1, 0).err(), Some(Error::NoSpace));
    assert_eq!(fs.free_count(), Ok(0));
    assert_eq!(fs.write_node(f, 9 * 512, &[1u8; 1], 1, 0), Err(Error::NoSpace));
    assert_eq!(fs.node_len(f), Ok(9 * 512));
    assert_eq!(fs.free_count(), Ok(0));
    assert_eq!(fs.find_node(b"more", root).err(), Some(Error::NotFound));
}

#[test]
fn create_gives_the_block_back_when_the_directory_cannot_grow() {
    let mut fs = mkfs(16);
    let root = fs.header.root;
    let f = file(&mut fs, b"fill", root);
    // fill the root's one block of entries: 64 of them
    for i in 1..64u32 {
        let name = format!("n{}", i);
        if fs.free_count().unwrap() == 0 {
            break;
        }
        file(&mut fs, name.as_bytes(), root);
    }
    let left = fs.free_count().unwrap();
    assert_eq!(left, 0);
    let mut kids = Vec::new();
    fs.child_nodes(&mut kids, root).unwrap();
    assert_eq!(kids.len(), 10);
    assert_eq!(kids[0].0, f);
}

#[test]
fn allocate_takes_the_end_of_the_first_extent_that_fits() {
    let mut fs = mkfs(64);
    assert_eq!(fs.allocate(0), Err(Error::Invalid));
    assert_eq!(fs.allocate(4), Ok(60));
    assert_eq!(fs.allocate(1), Ok(59));
    assert_eq!(fs.free_count(), Ok(54));
    assert_eq!(fs.node(4).unwrap().1.extents[0], Extent { start: 5, length: 512 * 54 });
    assert_eq!(fs.allocate(55), Err(Error::NoSpace));
    assert_eq!(fs.free_count(), Ok(54));
    assert_eq!(fs.allocate(54), Ok(5));
    assert_eq!(fs.free_count(), Ok(0));
    assert_eq!(fs.node(4).unwrap().1.extents[0], Extent { start: 0, length: 0 });
    assert_eq!(fs.allocate(1), Err(Error::NoSpace));
}

#[test]
fn deallocate_joins_what_touches() {
    let mut fs = mkfs(64);
    let a = fs.allocate(10).unwrap();
    assert_eq!(a, 54);
    // [5, 54) is free; [60, 64) touches nothing
    assert_eq!(fs.deallocate(60, 4), Ok(()));
    let rec = fs.node(4).unwrap().1;
    assert_eq!(rec.extents[0], Extent { start: 5, length: 512 * 49 });
    assert_eq!(rec.extents[1], Extent { start: 60, length: 512 * 4 });
    // [54, 56) ends the first extent
    assert_eq!(fs.deallocate(54, 2), Ok(()));
    assert_eq!(fs.node(4).unwrap().1.extents[0], Extent { start: 5, length: 512 * 51 });
    // [58, 60) starts the second
    assert_eq!(fs.deallocate(58, 2), Ok(()));
    assert_eq!(fs.node(4).unwrap().1.extents[1], Extent { start: 58, length: 512 * 6 });
    assert_eq!(fs.free_count(), Ok(57));
    assert_eq!(fs.deallocate(0, 0), Ok(()));
}

#[test]
fn a_full_free_record_gets_a_new_first_record() {
    let mut fs = mkfs(128);
    let start = fs.allocate(123).unwrap();
    assert_eq!(start, 5);
    assert_eq!(fs.free_count(), Ok(0));
    // sixteen runs of one block that do not touch fill the first record
    for i in 0..16u64 {
        assert_eq!(fs.deallocate(5 + 2 * i, 1), Ok(()));
    }
    assert_eq!(fs.free_count(), Ok(16));
    assert_eq!(fs.header.free, 4);
    // the next run of three becomes a record and two free blocks
    assert_eq!(fs.deallocate(100, 3), Ok(()));
    assert_eq!(fs.header.free, 100);
    assert_eq!(fs.free_count(), Ok(19));
    let head = fs.node(100).unwrap().1;
    assert_eq!(head.next, 4);
    assert_eq!(head.extents[0], Extent { start: 101, length: 1024 });
    assert_eq!(fs.node_len(100), Ok(512 * 18));
    let again = FileSystem::open(fs.disk).unwrap();
    assert_eq!(again.header.free, 100);
    let mut fs = again;
    // using up the first record's extent makes it leave the list; its own
    // block goes back into the list, which is full, and so it becomes the
    // first record again, now empty
    assert_eq!(fs.allocate(2), Ok(101));
    assert_eq!(fs.header.free, 100);
    assert_eq!(fs.node(100).unwrap().1.extents[0], Extent { start: 0, length: 0 });
    assert_eq!(fs.node(100).unwrap().1.next, 4);
    assert_eq!(fs.free_count(), Ok(17));
    assert_eq!(fs.allocate(1), Ok(5));
    // the record at block 4 empties, leaves the list, and is handed out last
    let mut seen = Vec::new();
    while let Ok(b) = fs.allocate(1) {
        seen.push(b);
    }
    assert_eq!(seen.len(), 16);
    assert_eq!(seen[15], 4);
    assert_eq!(fs.header.free, 100);
    assert_eq!(fs.node(100).unwrap().1.next, 0);
    assert_eq!(fs.free_count(), Ok(0));
}

#[test]
fn the_walk_goes_on_where_the_first_record_cannot_give() {
    let mut fs = mkfs(128);
    fs.allocate(123).unwrap();
    // the record at block 4 gets a run of three and fifteen of one
    fs.deallocate(50, 3).unwrap();
    for i in 0..15u64 {
        fs.deallocate(5 + 2 * i, 1).unwrap();
    }
    // a new first record at 100, holding [101, 103)
    fs.deallocate(100, 3).unwrap();
    assert_eq!(fs.header.free, 100);
    let before = fs.free_count().unwrap();
    assert_eq!(before, 21);
    // only the second record has three blocks in a row
    assert_eq!(fs.allocate(3), Ok(50));
    assert_eq!(fs.node(4).unwrap().1.extents[0], Extent { start: 0, length: 0 });
    assert_eq!(fs.header.free, 100);
    assert_eq!(fs.free_count(), Ok(before - 3));
    assert_eq!(fs.allocate(3), Err(Error::NoSpace));
    // the first record gives the end of its run first
    assert_eq!(fs.allocate(1), Ok(102));
    assert_eq!(fs.free_count(), Ok(before - 4));
}

#[test]
fn node_set_len_grows_and_shrinks() {
    let mut fs = mkfs(256);
    let root = fs.header.root;
    let f = file(&mut fs, b"f", root);
    let free = fs.free_count().unwrap();
    assert_eq!(fs.node_set_len(f, 100), Ok(()));
    assert_eq!(fs.node_len(f), Ok(100));
    assert_eq!(fs.free_count(), Ok(free - 1));
    // room in the last block: no new block
    assert_eq!(fs.node_set_len(f, 512), Ok(()));
    assert_eq!(fs.node_len(f), Ok(512));
    assert_eq!(fs.free_count(), Ok(free - 1));
    assert_eq!(fs.node_set_len(f, 513), Ok(()));
    assert_eq!(fs.free_count(), Ok(free - 2));
    let rec = fs.node(f).unwrap().1;
    assert_eq!(rec.extents[0].length, 512);
    assert_eq!(rec.extents[1].length, 1);
    assert_eq!(fs.node_set_len(f, 5000), Ok(()));
    assert_eq!(fs.node_len(f), Ok(5000));
    assert_eq!(fs.node_set_len(f, 512), Ok(()));
    assert_eq!(fs.node_len(f), Ok(512));
    assert_eq!(fs.free_count(), Ok(free - 1));
    assert_eq!(fs.node_set_len(f, 0), Ok(()));
    assert_eq!(fs.node_len(f), Ok(0));
    assert_eq!(fs.free_count(), Ok(free));
    assert_eq!(fs.node_set_len(f, 512 * 1000), Err(Error::NoSpace));
    assert_eq!(fs.node_len(f), Ok(0));
    assert_eq!(fs.free_count(), Ok(free));
    assert_eq!(fs.node_set_len(0, 1), Err(Error::NotFound));
    assert_eq!(fs.node_len(0), Err(Error::NotFound));
}

#[test]
fn shrinking_keeps_the_first_bytes_and_growing_keeps_all() {
    let mut fs = mkfs(256);
    let root = fs.header.root;
    let f = file(&mut fs, b"f", root);
    let data: Vec<u8> = (0..3000u32).map(|i| (i % 199) as u8).collect();
    for piece in data.chunks(700) {
        let at = fs.node_len(f).unwrap();
        assert_eq!(fs.write_node(f, at, piece, 1, 0), Ok(piece.len()));
    }
    assert_eq!(fs.node_set_len(f, 1234), Ok(()));
    let mut buf = vec![0u8; 3000];
    assert_eq!(fs.read_node(f, 0, &mut buf), Ok(1234));
    assert_eq!(&buf[..1234], &data[..1234]);
    assert_eq!(fs.node_set_len(f, 4000), Ok(()));
    assert_eq!(fs.read_node(f, 0, &mut buf), Ok(3000));
    assert_eq!(&buf[..1234], &data[..1234]);
    assert_eq!(fs.read_node(f, 3999, &mut buf), Ok(1));
    assert_eq!(fs.read_node(f, 4000, &mut buf), Ok(0));
    assert_eq!(fs.read_node(f, 5000, &mut buf), Ok(0));
}

#[test]
fn write_then_read_gives_back_what_was_written() {
    let mut fs = mkfs(256);
    let root = fs.header.root;
    let f = file(&mut fs, b"f", root);
    for n in [0usize, 1, 511, 512, 513, 2000, 20000] {
        let data: Vec<u8> = (0..n).map(|i| (i * 31 % 256) as u8).collect();
        assert_eq!(fs.write_node(f, 0, &data, 3, 4), Ok(n));
        let mut buf = vec![0u8; n];
        assert_eq!(fs.read_node(f, 0, &mut buf), Ok(n));
        assert_eq!(buf, data);
    }
}

#[test]
fn write_in_the_middle_leaves_the_rest() {
    let mut fs = mkfs(256);
    let root = fs.header.root;
    let f = file(&mut fs, b"f", root);
    assert_eq!(fs.write_node(f, 0, &[1u8; 1500], 3, 4), Ok(1500));
    assert_eq!(fs.node(f).unwrap().1.mtime, 3);
    assert_eq!(fs.write_node(f, 500, &[2u8; 600], 5, 6), Ok(600));
    // no growth: the time of the last growth stays
    assert_eq!(fs.node(f).unwrap().1.mtime, 3);
    let mut buf = vec![0u8; 1500];
    assert_eq!(fs.read_node(f, 0, &mut buf), Ok(1500));
    assert!(buf[..500].iter().all(|b| *b == 1));
    assert!(buf[500..1100].iter().all(|b| *b == 2));
    assert!(buf[1100..].iter().all(|b| *b == 1));
    assert_eq!(fs.write_node(f, 1400, &[3u8; 200], 7, 8), Ok(200));
    assert_eq!(fs.node(f).unwrap().1.mtime, 7);
    assert_eq!(fs.node(f).unwrap().1.mtime_nsec, 8);
    assert_eq!(fs.node_len(f), Ok(1600));
    assert_eq!(fs.overwrite(f, 1590, &[4u8; 100]), Ok(10));
    assert_eq!(fs.node_len(f), Ok(1600));
}

#[test]
fn write_node_refuses_a_directory() {
    let mut fs = mkfs(64);
    let root = fs.header.root;
    assert_eq!(fs.write_node(root, 0, &[1u8; 8], 0, 0), Err(Error::IsDir));
    assert_eq!(fs.node_len(root), Ok(0));
}

#[test]
fn child_nodes_lists_what_find_node_finds() {
    let mut fs = mkfs(256);
    let root = fs.header.root;
    let names: Vec<String> = (0..70).map(|i| format!("name{}", i)).collect();
    let mut blocks = Vec::new();
    for n in &names {
        blocks.push(file(&mut fs, n.as_bytes(), root));
    }
    let mut kids = Vec::new();
    assert_eq!(fs.child_nodes(&mut kids, root), Ok(()));
    assert_eq!(kids.len(), 70);
    for (i, (b, node)) in kids.iter().enumerate() {
        assert_eq!(*b, blocks[i]);
        assert_eq!(node.name(), names[i].as_bytes());
        let (fb, fnode) = fs.find_node(node.name(), root).unwrap();
        assert_eq!(fb, *b);
        assert_eq!(fnode.name(), node.name());
        assert_eq!(fnode.parent, root);
    }
    assert_eq!(fs.find_node(b"name70", root).err(), Some(Error::NotFound));
    assert_eq!(fs.find_node(b"Name1", root).err(), Some(Error::NotFound));
    assert_eq!(fs.find_node(b"x", 0).err(), Some(Error::NotFound));
    assert_eq!(fs.find_node(b"x", blocks[0]).err(), Some(Error::NotDir));
    assert_eq!(fs.child_nodes(&mut kids, blocks[0]), Err(Error::NotDir));
    assert_eq!(kids.len(), 70);
}

#[test]
fn create_refuses_a_name_that_is_taken() {
    let mut fs = mkfs(64);
    let root = fs.header.root;
    let a = file(&mut fs, b"a", root);
    let free = fs.free_count().unwrap();
    assert_eq!(fs.create_node(MODE_DIR, b"a", root, 0, 0, 0, 0).err(), Some(Error::Exists));
    assert_eq!(fs.create_node(MODE_FILE, b"b", a, 0, 0, 0, 0).err(), Some(Error::NotDir));
    assert_eq!(fs.free_count(), Ok(free));
}

#[test]
fn create_fills_the_record() {
    let mut fs = mkfs(64);
    let root = fs.header.root;
    let (b, node) = fs.create_node(MODE_FILE | 0o600, b"file", root, 10, 20, 30, 40).unwrap();
    let (_, read) = fs.node(b).unwrap();
    for n in [&node, &read] {
        assert_eq!(n.name(), b"file");
        assert_eq!(n.mode, MODE_FILE | 0o600);
        assert_eq!(n.uid, 10);
        assert_eq!(n.gid, 20);
        assert_eq!(n.ctime, 30);
        assert_eq!(n.ctime_nsec, 40);
        assert_eq!(n.mtime, 30);
        assert_eq!(n.mtime_nsec, 40);
        assert_eq!(n.parent, root);
        assert_eq!(n.next, 0);
        assert!(n.extents.iter().all(|e| e.length == 0));
    }
    assert_eq!(fs.node_len(root), Ok(8));
    let mut ptr = [0u8; 8];
    assert_eq!(fs.read_node(root, 0, &mut ptr), Ok(8));
    assert_eq!(u64::from_le_bytes(ptr), b);
}

#[test]
fn long_names_are_cut_to_the_name_field() {
    let mut fs = mkfs(64);
    let root = fs.header.root;
    let long = vec![b'x'; 300];
    let (b, node) = fs.create_node(MODE_FILE, &long, root, 0, 0, 0, 0).unwrap();
    assert_eq!(node.name().len(), 203);
    assert_eq!(fs.find_node(&long, root).unwrap().0, b);
    assert_eq!(fs.find_node(&long[..203], root).unwrap().0, b);
    assert_eq!(fs.find_node(&long[..202], root).err(), Some(Error::NotFound));
}

#[test]
fn remove_takes_the_last_entry_into_the_gap() {
    let mut fs = mkfs(64);
    let root = fs.header.root;
    let a = file(&mut fs, b"a", root);
    let b = file(&mut fs, b"b", root);
    let c = file(&mut fs, b"c", root);
    assert_eq!(fs.remove_node(MODE_FILE, b"a", root), Ok(()));
    let mut kids = Vec::new();
    fs.child_nodes(&mut kids, root).unwrap();
    assert_eq!(kids.iter().map(|k| k.0).collect::<Vec<_>>(), vec![c, b]);
    assert_eq!(fs.node_len(root), Ok(16));
    let _ = a;
}

#[test]
fn remove_checks_the_kind() {
    let mut fs = mkfs(64);
    let root = fs.header.root;
    file(&mut fs, b"f", root);
    fs.create_node(MODE_DIR, b"d", root, 0, 0, 0, 0).unwrap();
    assert_eq!(fs.remove_node(MODE_DIR, b"f", root), Err(Error::NotDir));
    assert_eq!(fs.remove_node(MODE_FILE, b"d", root), Err(Error::IsDir));
    assert_eq!(fs.remove_node(MODE_FILE, b"x", root), Err(Error::NotFound));
    assert_eq!(fs.remove_node(MODE_FILE, b"f", root), Ok(()));
    assert_eq!(fs.remove_node(MODE_DIR, b"d", root), Ok(()));
    assert_eq!(fs.node_len(root), Ok(0));
}

#[test]
fn rmdir_fails_while_a_child_remains() {
    let mut fs = mkfs(64);
    let root = fs.header.root;
    let (d, _) = fs.create_node(MODE_DIR, b"d", root, 0, 0, 0, 0).unwrap();
    for name in [b"1", b"2", b"3"] {
        file(&mut fs, name, d);
    }
    for name in [b"1", b"2", b"3"] {
        assert_eq!(fs.remove_node(MODE_DIR, b"d", root), Err(Error::NotEmpty));
        assert_eq!(fs.remove_node(MODE_FILE, name, d), Ok(()));
    }
    assert_eq!(fs.remove_node(MODE_DIR, b"d", root), Ok(()));
}

#[test]
fn create_then_remove_restores_the_free_count() {
    let mut fs = mkfs(512);
    let root = fs.header.root;
    for round in 0..130u32 {
        let before = fs.free_count().unwrap();
        let name = format!("r{}", round);
        let f = file(&mut fs, b"tmp", root);
        fs.write_node(f, 0, &vec![7u8; 600 * (round as usize % 5)], 0, 0).unwrap();
        assert_eq!(fs.remove_node(MODE_FILE, b"tmp", root), Ok(()));
        assert_eq!(fs.free_count(), Ok(before));
        // the directory grows: by a block now and then, by a record once
        file(&mut fs, name.as_bytes(), root);
    }
}

#[test]
fn removing_a_file_returns_all_its_blocks() {
    let mut fs = mkfs(1024);
    let root = fs.header.root;
    // an entry that stays, so that the root keeps its block of entries
    file(&mut fs, b"stay", root);
    let before = fs.free_count().unwrap();
    let f = file(&mut fs, b"f", root);
    for i in 0..40u64 {
        fs.write_node(f, i * 1000, &[9u8; 1000], 0, 0).unwrap();
    }
    assert_ne!(fs.node(f).unwrap().1.next, 0);
    assert_eq!(fs.remove_node(MODE_FILE, b"f", root), Ok(()));
    assert_eq!(fs.free_count(), Ok(before));
}

#[test]
fn write_node_record_keeps_the_extents() {
    let mut fs = mkfs(64);
    let root = fs.header.root;
    let f = file(&mut fs, b"f", root);
    fs.write_node(f, 0, &[1u8; 700], 0, 0).unwrap();
    let (_, on_disk) = fs.node(f).unwrap();
    let mut node = Node::new(MODE_FILE, b"g", root, 1, 2, 3, 4);
    node.next = 999;
    node.extents[5] = Extent { start: 1, length: 1 };
    assert_eq!(fs.write_node_record(f, &node), Ok(()));
    let (_, now) = fs.node(f).unwrap();
    assert_eq!(now.name(), b"g");
    assert_eq!(now.uid, 1);
    assert_eq!(now.next, on_disk.next);
    assert_eq!(now.extents, on_disk.extents);
    assert_eq!(fs.node_len(f), Ok(700));
    node.name = vec![b'n'; 204];
    assert_eq!(fs.write_node_record(f, &node), Err(Error::Invalid));
    assert_eq!(fs.touch(f, 77, 88), Ok(()));
    assert_eq!(fs.node(f).unwrap().1.mtime, 77);
    assert_eq!(fs.node(f).unwrap().1.mtime_nsec, 88);
}

#[test]
fn no_block_serves_two_nodes() {
    let mut fs = mkfs(512);
    let root = fs.header.root;
    let mut files = Vec::new();
    for i in 0..20u32 {
        let name = format!("f{}", i);
        let f = file(&mut fs, name.as_bytes(), root);
        fs.write_node(f, 0, &vec![i as u8; 300 * (i as usize + 1)], 0, 0).unwrap();
        files.push(f);
    }
    for i in (0..20).step_by(3) {
        let name = format!("f{}", i);
        fs.remove_node(MODE_FILE, name.as_bytes(), root).unwrap();
    }
    // walk every chain and mark its blocks
    let total = fs.disk.blocks();
    let mut owner = vec![0u8; total as usize];
    for b in 0..3 {
        owner[b] = 1;
    }
    let mut chains = vec![fs.header.free, root];
    let mut kids = Vec::new();
    fs.child_nodes(&mut kids, root).unwrap();
    chains.extend(kids.iter().map(|k| k.0));
    for head in chains {
        let mut b = head;
        while b != 0 {
            assert_eq!(owner[b as usize], 0);
            owner[b as usize] = 2;
            let rec = fs.node(b).unwrap().1;
            for e in rec.extents.iter() {
                for x in e.start..e.start + e.blocks() {
                    assert_eq!(owner[x as usize], 0);
                    owner[x as usize] = 3;
                }
            }
            b = rec.next;
        }
    }
    // and none is left over
    assert!(owner.iter().all(|o| *o != 0));
}

#[test]
fn a_name_is_found_once_it_is_created_and_gone_once_it_is_removed() {
    let mut fs = mkfs(64);
    let root = fs.header.root;
    for name in [&b"a"[..], b"b", b"c"] {
        assert_eq!(fs.find_node(name, root).err(), Some(Error::NotFound));
        let b = file(&mut fs, name, root);
        assert_eq!(fs.find_node(name, root).unwrap().0, b);
    }
    assert_eq!(fs.remove_node(MODE_FILE, b"a", root), Ok(()));
    assert_eq!(fs.find_node(b"a", root).err(), Some(Error::NotFound));
    assert!(fs.find_node(b"b", root).is_ok());
    assert!(fs.find_node(b"c", root).is_ok());
}

#[test]
fn setting_the_same_length_changes_nothing() {
    let mut fs = mkfs(1024);
    let root = fs.header.root;
    let f = file(&mut fs, b"f", root);
    for i in 0..40u64 {
        fs.write_node(f, i * 1000, &[9u8; 1000], 0, 0).unwrap();
    }
    let free = fs.free_count().unwrap();
    assert_eq!(fs.node_set_len(f, 40_000), Ok(()));
    assert_eq!(fs.node_len(f), Ok(40_000));
    assert_eq!(fs.free_count(), Ok(free));
    let mut buf = vec![0u8; 40_000];
    assert_eq!(fs.read_node(f, 0, &mut buf), Ok(40_000));
    assert!(buf.iter().all(|b| *b == 9));
}

#[test]
fn growth_needs_one_run_of_blocks() {
    let mut fs = mkfs(64);
    let root = fs.header.root;
    let f = file(&mut fs, b"f", root);
    let rest = fs.free_count().unwrap();
    let start = fs.allocate(rest).unwrap();
    assert_eq!(fs.free_count(), Ok(0));
    // two free blocks that do not touch
    fs.deallocate(start, 1).unwrap();
    fs.deallocate(start + 2, 1).unwrap();
    assert_eq!(fs.free_count(), Ok(2));
    assert_eq!(fs.node_set_len(f, 1024), Err(Error::NoSpace));
    assert_eq!(fs.node_len(f), Ok(0));
    assert_eq!(fs.free_count(), Ok(2));
    assert_eq!(fs.node_set_len(f, 512), Ok(()));
    assert_eq!(fs.node_set_len(f, 1024), Ok(()));
    assert_eq!(fs.node_len(f), Ok(1024));
    assert_eq!(fs.free_count(), Ok(0));
}

#[test]
fn growth_succeeds_where_one_run_holds_it() {
    let mut fs = mkfs(64);
    let root = fs.header.root;
    let f = file(&mut fs, b"f", root);
    let rest = fs.free_count().unwrap();
    let start = fs.allocate(rest).unwrap();
    fs.deallocate(start, 1).unwrap();
    fs.deallocate(start + 2, 3).unwrap();
    assert_eq!(fs.free_count(), Ok(4));
    assert_eq!(fs.node_set_len(f, 1024), Ok(()));
    assert_eq!(fs.node_len(f), Ok(1024));
    assert_eq!(fs.free_count(), Ok(2));
    let (_, rec) = fs.node(f).unwrap();
    assert_eq!(rec.extents[0], Extent { start: start + 3, length: 1024 });
    let (_, free) = fs.node(fs.header.free).unwrap();
    assert_eq!(free.extents[0], Extent { start, length: 512 });
    assert_eq!(free.extents[1], Extent { start: start + 2, length: 512 });
}
