use redoxfs::disk::MemDisk;
use redoxfs::error::Error;
use redoxfs::flag::{
    F_GETFL, F_SETFL, MODE_DIR, MODE_FILE, O_ACCMODE, O_RDONLY, O_RDWR, O_WRONLY, SEEK_CUR,
    SEEK_END, SEEK_SET,
};
use redoxfs::fs::FileSystem;
use redoxfs::handle::Handle;
use redoxfs::resource::{seek_to, DirResource, FileResource, Resource, Stat, TimeSpec};

fn setup() -> (FileSystem<MemDisk>, u64) {
    let mut fs = FileSystem::create(MemDisk::new(256), 1, 2).unwrap();
    let root = fs.header.root;
    let (f, _) = fs.create_node(MODE_FILE | 0o644, b"f", root, 1000, 100, 5, 6).unwrap();
    (fs, f)
}

fn zero_stat() -> Stat {
    Stat {
        st_dev: 9,
        st_ino: 9,
        st_mode: 9,
        st_nlink: 9,
        st_uid: 9,
        st_gid: 9,
        st_size: 9,
        st_blksize: 9,
        st_blocks: 9,
        st_mtime: 9,
        st_mtime_nsec: 9,
        st_atime: 9,
        st_atime_nsec: 9,
        st_ctime: 9,
        st_ctime_nsec: 9,
    }
}

#[test]
fn new_keeps_what_it_is_given() {
    let d = DirResource::new("dir".to_string(), 3, Some(vec![1, 2, 3]));
    assert_eq!(d.path, "dir");
    assert_eq!(d.block, 3);
    assert_eq!(d.data, Some(vec![1, 2, 3]));
    assert_eq!(d.seek, 0);
    let f = FileResource::new("file".to_string(), 7, O_RDWR, 11, 13);
    assert_eq!(f.path, "file");
    assert_eq!(f.block, 7);
    assert_eq!(f.flags, O_RDWR);
    assert_eq!(f.seek, 11);
    assert_eq!(f.uid, 13);
}

#[test]
fn flags_gate_reading_and_writing() {
    let (mut fs, f) = setup();
    let mut h = FileResource::new("f".to_string(), f, O_RDONLY, 0, 0);
    assert_eq!(h.write(b"abc", &mut fs), Err(Error::BadFile));
    assert_eq!(h.write_at(b"abc", &mut fs, 1, 2), Err(Error::BadFile));
    assert_eq!(fs.node_len(f), Ok(0));
    let mut h = FileResource::new("f".to_string(), f, O_WRONLY, 0, 0);
    let mut buf = [9u8; 4];
    assert_eq!(h.read(&mut buf, &mut fs), Err(Error::BadFile));
    assert_eq!(buf, [9u8; 4]);
    assert_eq!(h.seek, 0);
    assert_eq!(h.write(b"abc", &mut fs), Ok(3));
    assert_eq!(h.seek, 3);
    assert_eq!(fs.node_len(f), Ok(3));
    let mut h = FileResource::new("f".to_string(), f, O_RDWR, 0, 0);
    assert_eq!(h.read(&mut buf, &mut fs), Ok(3));
    assert_eq!(&buf[..3], b"abc");
    assert_eq!(h.write(b"de", &mut fs), Ok(2));
    assert_eq!(h.seek, 5);
    // no access mode at all
    let mut h = FileResource::new("f".to_string(), f, 0, 0, 0);
    assert_eq!(h.read(&mut buf, &mut fs), Err(Error::BadFile));
    assert_eq!(h.write(b"x", &mut fs), Err(Error::BadFile));
    assert_eq!(h.truncate(0, &mut fs), Err(Error::BadFile));
}

#[test]
fn file_read_moves_the_cursor_and_stops_at_the_end() {
    let (mut fs, f) = setup();
    fs.write_node(f, 0, b"hello world", 0, 0).unwrap();
    let mut h = FileResource::new("f".to_string(), f, O_RDONLY, 6, 0);
    let mut buf = [b'.'; 8];
    assert_eq!(h.read(&mut buf, &mut fs), Ok(5));
    assert_eq!(&buf, b"world...");
    assert_eq!(h.seek, 11);
    assert_eq!(h.read(&mut buf, &mut fs), Ok(0));
    assert_eq!(h.seek, 11);
}

#[test]
fn write_at_records_the_time_when_the_file_grows() {
    let (mut fs, f) = setup();
    let mut h = FileResource::new("f".to_string(), f, O_WRONLY, 0, 0);
    assert_eq!(h.write_at(b"abcd", &mut fs, 123, 456), Ok(4));
    let rec = fs.node(f).unwrap().1;
    assert_eq!((rec.mtime, rec.mtime_nsec), (123, 456));
    assert_eq!((rec.ctime, rec.ctime_nsec), (5, 6));
    let mut h = FileResource::new("f".to_string(), f, O_WRONLY, 2, 0);
    assert_eq!(h.write(b"zzzz", &mut fs), Ok(4));
    assert_eq!(h.seek, 6);
    let rec = fs.node(f).unwrap().1;
    // the wall clock is far behind 1970
    assert!(rec.mtime > 1_000_000_000);
    assert!(rec.mtime_nsec < 1_000_000_000);
    let mut buf = [0u8; 6];
    fs.read_node(f, 0, &mut buf).unwrap();
    assert_eq!(&buf, b"abzzzz");
}

#[test]
fn file_seek_stops_at_zero_and_passes_the_end() {
    let (mut fs, f) = setup();
    fs.write_node(f, 0, &[1u8; 100], 0, 0).unwrap();
    let mut h = FileResource::new("f".to_string(), f, O_RDONLY, 0, 0);
    assert_eq!(h.seek(10, SEEK_SET, &mut fs), Ok(10));
    assert_eq!(h.seek(5, SEEK_CUR, &mut fs), Ok(15));
    assert_eq!(h.seek((-20isize) as usize, SEEK_CUR, &mut fs), Ok(0));
    assert_eq!(h.seek(0, SEEK_END, &mut fs), Ok(100));
    assert_eq!(h.seek((-1isize) as usize, SEEK_END, &mut fs), Ok(99));
    assert_eq!(h.seek(1000, SEEK_END, &mut fs), Ok(1100));
    assert_eq!(h.seek, 1100);
    assert_eq!(h.seek((-5isize) as usize, SEEK_SET, &mut fs), Ok(0));
    assert_eq!(h.seek(0, 3, &mut fs), Err(Error::Invalid));
    assert_eq!(h.seek, 0);
}

#[test]
fn seek_to_holds_the_position_to_its_range() {
    assert_eq!(seek_to(0, 5, 10), 5);
    assert_eq!(seek_to(7, 5, 10), 10);
    assert_eq!(seek_to(7, (-5isize) as usize, 10), 2);
    assert_eq!(seek_to(7, (-8isize) as usize, 10), 0);
    assert_eq!(seek_to(0, usize::MAX / 2, u64::MAX), (usize::MAX / 2) as u64);
    assert_eq!(seek_to(u64::MAX, 1, u64::MAX), u64::MAX);
    assert_eq!(seek_to(5, usize::MAX / 2 + 1, u64::MAX), 0);
}

#[test]
fn fcntl_keeps_the_access_mode() {
    let mut h = FileResource::new("f".to_string(), 5, O_RDONLY | 0x40, 0, 0);
    assert_eq!(h.fcntl(F_GETFL, 0), Ok(O_RDONLY | 0x40));
    assert_eq!(h.fcntl(F_SETFL, O_RDWR | 0x100), Ok(0));
    assert_eq!(h.flags, O_RDONLY | 0x100);
    assert_eq!(h.flags & O_ACCMODE, O_RDONLY);
    assert_eq!(h.fcntl(F_GETFL, 0), Ok(O_RDONLY | 0x100));
    assert_eq!(h.fcntl(99, 0), Err(Error::Invalid));
    assert_eq!(h.flags, O_RDONLY | 0x100);
    assert_eq!(h.sync(), Ok(0));
}

#[test]
fn path_copies_what_fits() {
    let h = FileResource::new("some/path".to_string(), 5, 0, 0, 0);
    let mut small = [0u8; 4];
    assert_eq!(h.path(&mut small), Ok(4));
    assert_eq!(&small, b"some");
    let mut large = [b'.'; 12];
    assert_eq!(h.path(&mut large), Ok(9));
    assert_eq!(&large, b"some/path...");
    let d = DirResource::new("d".to_string(), 3, None);
    assert_eq!(d.path(&mut small), Ok(1));
    assert_eq!(&small, b"dome");
}

#[test]
fn stat_tells_of_the_node() {
    let (mut fs, f) = setup();
    fs.write_node(f, 0, &[1u8; 700], 50, 60).unwrap();
    let h = FileResource::new("f".to_string(), f, O_RDONLY, 0, 0);
    let mut stat = zero_stat();
    assert_eq!(h.stat(&mut stat, &mut fs), Ok(0));
    assert_eq!(
        stat,
        Stat {
            st_dev: 0,
            st_ino: f,
            st_mode: MODE_FILE | 0o644,
            st_nlink: 1,
            st_uid: 1000,
            st_gid: 100,
            st_size: 700,
            st_blksize: 0,
            st_blocks: 0,
            st_mtime: 50,
            st_mtime_nsec: 60,
            st_atime: 0,
            st_atime_nsec: 0,
            st_ctime: 5,
            st_ctime_nsec: 6,
        }
    );
    let root = fs.header.root;
    let d = DirResource::new("".to_string(), root, None);
    assert_eq!(d.stat(&mut stat, &mut fs), Ok(0));
    assert_eq!(stat.st_ino, root);
    assert_eq!(stat.st_mode & MODE_DIR, MODE_DIR);
    assert_eq!(stat.st_size, 8);
    let gone = FileResource::new("f".to_string(), 0, O_RDONLY, 0, 0);
    let mut untouched = zero_stat();
    assert_eq!(gone.stat(&mut untouched, &mut fs), Err(Error::NotFound));
    assert_eq!(untouched, zero_stat());
    let far = DirResource::new("f".to_string(), 1 << 40, None);
    assert_eq!(far.stat(&mut untouched, &mut fs), Err(Error::Io));
    assert_eq!(untouched, zero_stat());
}

#[test]
fn truncate_sets_the_length() {
    let (mut fs, f) = setup();
    fs.write_node(f, 0, &[1u8; 700], 0, 0).unwrap();
    let mut h = FileResource::new("f".to_string(), f, O_RDWR, 0, 0);
    assert_eq!(h.truncate(100, &mut fs), Ok(0));
    assert_eq!(fs.node_len(f), Ok(100));
    assert_eq!(h.truncate(2000, &mut fs), Ok(0));
    assert_eq!(fs.node_len(f), Ok(2000));
    assert_eq!(h.truncate(512 * 100_000, &mut fs), Err(Error::NoSpace));
    assert_eq!(fs.node_len(f), Ok(2000));
}

#[test]
fn utimens_is_for_the_owner_and_for_user_zero() {
    let (mut fs, f) = setup();
    let times = [TimeSpec { tv_sec: 1, tv_nsec: 2 }, TimeSpec { tv_sec: 30, tv_nsec: 40 }];
    let mut other = FileResource::new("f".to_string(), f, O_RDWR, 0, 1001);
    assert_eq!(other.utimens(&times, &mut fs), Err(Error::BadFile));
    assert_eq!(fs.node(f).unwrap().1.mtime, 5);
    let mut owner = FileResource::new("f".to_string(), f, O_RDONLY, 0, 1000);
    assert_eq!(owner.utimens(&times, &mut fs), Ok(0));
    let rec = fs.node(f).unwrap().1;
    assert_eq!((rec.mtime, rec.mtime_nsec), (30, 40));
    assert_eq!((rec.ctime, rec.ctime_nsec), (5, 6));
    let mut zero = FileResource::new("f".to_string(), f, O_RDONLY, 0, 0);
    assert_eq!(zero.utimens(&[TimeSpec { tv_sec: 0, tv_nsec: 0 }, TimeSpec { tv_sec: -1, tv_nsec: 7 }], &mut fs), Ok(0));
    let rec = fs.node(f).unwrap().1;
    assert_eq!((rec.mtime, rec.mtime_nsec), (u64::MAX, 7));
    // a missing second entry: nothing happens, and that is no error
    assert_eq!(zero.utimens(&times[..1], &mut fs), Ok(0));
    assert_eq!(zero.utimens(&[], &mut fs), Ok(0));
    assert_eq!(fs.node(f).unwrap().1.mtime, u64::MAX);
}

#[test]
fn dup_copies_the_handle() {
    let h = FileResource::new("p".to_string(), 5, O_RDWR, 9, 3);
    let c = h.dup().unwrap();
    assert_eq!((c.path.as_str(), c.block, c.flags, c.seek, c.uid), ("p", 5, O_RDWR, 9, 3));
    let mut d = DirResource::new("q".to_string(), 3, Some(vec![1, 2, 3, 4]));
    d.seek = 2;
    let c = d.dup().unwrap();
    assert_eq!((c.path.as_str(), c.block, c.data, c.seek), ("q", 3, Some(vec![1, 2, 3, 4]), 2));
    let c = DirResource::new("q".to_string(), 3, None).dup().unwrap();
    assert_eq!(c.data, None);
}

#[test]
fn dir_read_needs_a_listing() {
    let (mut fs, _) = setup();
    let mut buf = [0u8; 3];
    let mut bare = DirResource::new("d".to_string(), 3, None);
    buf = [7u8; 3];
    assert_eq!(bare.read(&mut buf, &mut fs), Err(Error::IsDir));
    assert_eq!(buf, [7u8; 3]);
    assert_eq!(bare.seek(0, SEEK_SET, &mut fs), Err(Error::BadFile));
    let mut d = DirResource::new("d".to_string(), 3, Some(b"a\nbc\n".to_vec()));
    assert_eq!(d.read(&mut buf, &mut fs), Ok(3));
    assert_eq!(&buf, b"a\nb");
    assert_eq!(d.seek, 3);
    assert_eq!(d.read(&mut buf, &mut fs), Ok(2));
    assert_eq!(&buf, b"c\nb");
    assert_eq!(d.read(&mut buf, &mut fs), Ok(0));
    assert_eq!(d.seek, 5);
}

#[test]
fn dir_seek_stays_within_the_listing() {
    let (mut fs, _) = setup();
    let mut d = DirResource::new("d".to_string(), 3, Some(vec![0u8; 10]));
    assert_eq!(d.seek(4, SEEK_SET, &mut fs), Ok(4));
    assert_eq!(d.seek(3, SEEK_CUR, &mut fs), Ok(7));
    assert_eq!(d.seek(30, SEEK_CUR, &mut fs), Ok(10));
    assert_eq!(d.seek((-3isize) as usize, SEEK_END, &mut fs), Ok(7));
    assert_eq!(d.seek((-30isize) as usize, SEEK_CUR, &mut fs), Ok(0));
    assert_eq!(d.seek(5, SEEK_END, &mut fs), Ok(10));
    assert_eq!(d.seek(0, 7, &mut fs), Err(Error::Invalid));
    assert_eq!(d.seek, 10);
}

#[test]
fn a_directory_handle_refuses_what_is_for_files() {
    let (mut fs, _) = setup();
    let mut d = DirResource::new("d".to_string(), 3, Some(vec![0u8; 10]));
    assert_eq!(d.write(b"x", &mut fs), Err(Error::BadFile));
    assert_eq!(d.fcntl(F_GETFL, 0), Err(Error::BadFile));
    assert_eq!(d.sync(), Err(Error::BadFile));
    assert_eq!(d.truncate(0, &mut fs), Err(Error::BadFile));
    assert_eq!(d.utimens(&[], &mut fs), Err(Error::BadFile));
}

#[test]
fn a_handle_of_either_kind_does_what_its_kind_does() {
    let (mut fs, f) = setup();
    let root = fs.header.root;
    let mut open = vec![
        Handle::File(FileResource::new("f".to_string(), f, O_RDWR, 0, 1000)),
        Handle::Dir(DirResource::new("".to_string(), root, Some(b"f\n".to_vec()))),
    ];
    assert_eq!(open[0].write(b"hello", &mut fs), Ok(5));
    assert_eq!(open[1].write(b"hello", &mut fs), Err(Error::BadFile));
    assert_eq!(open[0].seek(1, SEEK_SET, &mut fs), Ok(1));
    let mut buf = [0u8; 8];
    assert_eq!(open[0].read(&mut buf, &mut fs), Ok(4));
    assert_eq!(&buf[..4], b"ello");
    assert_eq!(open[1].read(&mut buf, &mut fs), Ok(2));
    assert_eq!(&buf[..2], b"f\n");
    assert_eq!(open[0].truncate(2, &mut fs), Ok(0));
    assert_eq!(fs.node_len(f), Ok(2));
    assert_eq!(open[1].truncate(2, &mut fs), Err(Error::BadFile));
    assert_eq!(open[0].fcntl(F_GETFL, 0), Ok(O_RDWR));
    assert_eq!(open[1].fcntl(F_GETFL, 0), Err(Error::BadFile));
    assert_eq!(open[0].sync(), Ok(0));
    assert_eq!(open[1].sync(), Err(Error::BadFile));
    let mut name = [0u8; 4];
    assert_eq!(open[0].path(&mut name), Ok(1));
    assert_eq!(name[0], b'f');
    let mut st = zero_stat();
    assert_eq!(open[1].stat(&mut st, &mut fs), Ok(0));
    assert_eq!(st.st_ino, root);
    assert_eq!(open[0].stat(&mut st, &mut fs), Ok(0));
    assert_eq!((st.st_ino, st.st_size), (f, 2));
    let times = [TimeSpec { tv_sec: 1, tv_nsec: 2 }, TimeSpec { tv_sec: 30, tv_nsec: 40 }];
    assert_eq!(open[0].utimens(&times, &mut fs), Ok(0));
    assert_eq!(fs.node(f).unwrap().1.mtime, 30);
    assert_eq!(open[1].utimens(&times, &mut fs), Err(Error::BadFile));
    match open[0].dup() {
        Ok(Handle::File(copy)) => assert_eq!((copy.block, copy.flags, copy.seek), (f, O_RDWR, 5)),
        _ => panic!("a file handle copies to a file handle"),
    }
    match open[1].dup() {
        Ok(Handle::Dir(copy)) => assert_eq!((copy.block, copy.seek), (root, 2)),
        _ => panic!("a directory handle copies to a directory handle"),
    }
}
