use vstd::prelude::*;
use vstd::slice::slice_to_vec;
use vstd::string::StringSliceAdditionalSpecFns;
use vstd::utf8::encode_utf8;
use crate::content::lemma_node_not_free;
use crate::disk::Disk;
use crate::error::Error;
use crate::flag::{F_GETFL, F_SETFL, O_ACCMODE, O_RDONLY, O_RDWR, O_WRONLY, SEEK_CUR, SEEK_END, SEEK_SET};
use crate::fs::{read_back, written, FileSystem};
use crate::node::{Node, NodeView};
use crate::span::within;

verus! {

/// What `stat` tells of a node.
#[derive(Clone, Copy, Debug, PartialEq, Eq, Structural)]
pub struct Stat {
    pub st_dev: u64,
    pub st_ino: u64,
    pub st_mode: u32,
    pub st_nlink: u32,
    pub st_uid: u32,
    pub st_gid: u32,
    pub st_size: u64,
    pub st_blksize: u32,
    pub st_blocks: u64,
    pub st_mtime: u64,
    pub st_mtime_nsec: u32,
    pub st_atime: u64,
    pub st_atime_nsec: u32,
    pub st_ctime: u64,
    pub st_ctime_nsec: u32,
}

/// A point in time: seconds since the epoch, and nanoseconds.
#[derive(Clone, Copy, Debug, PartialEq, Eq, Structural)]
pub struct TimeSpec {
    pub tv_sec: i64,
    pub tv_nsec: i32,
}

/// What `stat` tells of the node at `block` with record `rec`, which holds
/// `size` bytes.
pub open spec fn stat_of(block: u64, rec: NodeView, size: u64) -> Stat {
    Stat {
        st_dev: 0,
        st_ino: block,
        st_mode: rec.mode,
        st_nlink: 1,
        st_uid: rec.uid,
        st_gid: rec.gid,
        st_size: size,
        st_blksize: 0,
        st_blocks: 0,
        st_mtime: rec.mtime,
        st_mtime_nsec: rec.mtime_nsec,
        st_atime: 0,
        st_atime_nsec: 0,
        st_ctime: rec.ctime,
        st_ctime_nsec: rec.ctime_nsec,
    }
}

/// An offset of a seek as a signed number: the upper half of the range
/// stands for the negative numbers.
pub open spec fn signed(offset: usize) -> int {
    if offset <= usize::MAX / 2 {
        offset as int
    } else {
        offset - usize::MAX - 1
    }
}

/// `v` held to the range from `lo` to `hi`.
pub open spec fn clamp(v: int, lo: int, hi: int) -> int {
    if v < lo {
        lo
    } else if v > hi {
        hi
    } else {
        v
    }
}

/// Whether open flags allow reading.
pub open spec fn may_read(flags: usize) -> bool {
    flags & O_ACCMODE == O_RDWR || flags & O_ACCMODE == O_RDONLY
}

/// Whether open flags allow writing.
pub open spec fn may_write(flags: usize) -> bool {
    flags & O_ACCMODE == O_RDWR || flags & O_ACCMODE == O_WRONLY
}

/// The position that a seek from `base` by `offset` leads to, held to
/// `[0, top]`.
pub fn seek_to(base: u64, offset: usize, top: u64) -> (r: u64)
    requires
        base <= top,
    ensures
        r == clamp(base + signed(offset), 0, top as int),
{
    if offset <= usize::MAX / 2 {
        let room = top - base;
        if offset as u64 <= room {
            base + offset as u64
        } else {
            top
        }
    } else {
        let back: usize = usize::MAX - offset + 1;
        if back as u64 >= base {
            0
        } else {
            base - back as u64
        }
    }
}

/// Copies the bytes of `src` into `buf`, as many as `buf` takes, and
/// returns their number.
pub fn copy_prefix(src: &[u8], buf: &mut [u8]) -> (n: usize)
    ensures
        final(buf)@.len() == old(buf)@.len(),
        n == (if src@.len() < old(buf)@.len() {
            src@.len()
        } else {
            old(buf)@.len()
        }),
        forall|q: int| 0 <= q < n ==> #[trigger] final(buf)@[q] == src@[q],
        forall|q: int| n <= q < old(buf)@.len() ==> #[trigger] final(buf)@[q] == old(buf)@[q],
{
    let cap = buf.len();
    let len = src.len();
    let mut i: usize = 0;
    while i < cap && i < len
        invariant
            i <= cap,
            i <= len,
            cap == buf@.len(),
            len == src@.len(),
            buf@.len() == old(buf)@.len(),
            forall|q: int| 0 <= q < i ==> #[trigger] buf@[q] == src@[q],
            forall|q: int| i <= q < cap ==> #[trigger] buf@[q] == old(buf)@[q],
        decreases cap - i,
    {
        buf[i] = src[i];
        i += 1;
    }
    i
}

/// `std::time::SystemTime`, a reading of the wall clock. Nothing is known
/// of what a value holds.
#[verifier::external_type_specification]
#[verifier::external_body]
pub struct ExSystemTime(std::time::SystemTime);

/// `std::time::SystemTimeError`, what `SystemTime::duration_since` gives
/// where the second time is the later one.
#[verifier::external_type_specification]
#[verifier::external_body]
pub struct ExSystemTimeError(std::time::SystemTimeError);

/// `std::time::SystemTime::now`: the wall clock as it stands. Nothing is
/// said of the reading.
#[verifier::external_body]
fn clock() -> (t: std::time::SystemTime) {
    std::time::SystemTime::now()
}

/// `SystemTime::duration_since`, with the Unix epoch as the earlier time:
/// the time that has passed since the epoch, or an error where `t` stands
/// before it. Nothing is said of which, nor of the duration.
#[verifier::external_body]
fn since_epoch(t: &std::time::SystemTime) -> (r: Result<
    std::time::Duration,
    std::time::SystemTimeError,
>) {
    t.duration_since(std::time::UNIX_EPOCH)
}

/// `Duration::as_secs`: the whole seconds of `d`. Nothing is said of them.
#[verifier::external_body]
fn whole_seconds(d: &std::time::Duration) -> (s: u64) {
    d.as_secs()
}

/// `Duration::subsec_nanos`: the part of `d` below a second, in
/// nanoseconds, which is less than one billion.
#[verifier::external_body]
fn part_nanos(d: &std::time::Duration) -> (n: u32)
    ensures
        n < 1_000_000_000,
{
    d.subsec_nanos()
}

/// The wall clock, as seconds and nanoseconds since the Unix epoch, or
/// nothing where the clock stands before the epoch.
fn now() -> (r: Option<(u64, u32)>)
    ensures
        r matches Some(t) ==> t.1 < 1_000_000_000,
{
    let t = clock();
    match since_epoch(&t) {
        Ok(d) => Some((whole_seconds(&d), part_nanos(&d))),
        Err(_) => None,
    }
}

/// What an open handle can be asked to do. The filesystem is handed to each
/// operation; a handle holds no reference to it.
pub trait Resource: Sized {
    fn dup(&self) -> (r: Result<Self, Error>);

    fn read<D: Disk>(&mut self, buf: &mut [u8], fs: &mut FileSystem<D>) -> (r: Result<usize, Error>)
        requires
            old(fs).disk.inv(),
        ensures
            final(fs).disk.inv(),
            final(buf)@.len() == old(buf)@.len(),
    ;

    fn write<D: Disk>(&mut self, buf: &[u8], fs: &mut FileSystem<D>) -> (r: Result<usize, Error>)
        requires
            old(fs).disk.inv(),
        ensures
            final(fs).disk.inv(),
    ;

    fn seek<D: Disk>(&mut self, offset: usize, whence: usize, fs: &mut FileSystem<D>) -> (r: Result<
        usize,
        Error,
    >)
        requires
            old(fs).disk.inv(),
        ensures
            final(fs).disk.inv(),
    ;

    fn fcntl(&mut self, cmd: usize, arg: usize) -> (r: Result<usize, Error>);

    fn path(&self, buf: &mut [u8]) -> (r: Result<usize, Error>)
        ensures
            final(buf)@.len() == old(buf)@.len(),
    ;

    fn stat<D: Disk>(&self, stat: &mut Stat, fs: &mut FileSystem<D>) -> (r: Result<usize, Error>)
        requires
            old(fs).disk.inv(),
        ensures
            final(fs).disk.inv(),
    ;

    fn sync(&mut self) -> (r: Result<usize, Error>);

    fn truncate<D: Disk>(&mut self, len: usize, fs: &mut FileSystem<D>) -> (r: Result<usize, Error>)
        requires
            old(fs).disk.inv(),
        ensures
            final(fs).disk.inv(),
    ;

    fn utimens<D: Disk>(&mut self, times: &[TimeSpec], fs: &mut FileSystem<D>) -> (r: Result<usize, Error>)
        requires
            old(fs).disk.inv(),
        ensures
            final(fs).disk.inv(),
    ;
}

/// Fills `stat` from the node at `block`.
pub fn stat_node<D: Disk>(block: u64, stat: &mut Stat, fs: &mut FileSystem<D>) -> (r: Result<
    usize,
    Error,
>)
    requires
        old(fs).disk.inv(),
    ensures
        final(fs).disk.inv(),
        final(fs).same_as(old(fs)),
        block == 0 ==> r == Err::<usize, Error>(Error::NotFound),
        block >= old(fs).disk@.len() && block != 0 ==> r == Err::<usize, Error>(Error::Io),
        r is Err ==> *final(stat) == *old(stat),
        old(fs).wf() && old(fs).is_node(block) ==> match r {
            Ok(n) => n == 0 && *final(stat) == stat_of(
                block,
                old(fs).record(block),
                old(fs).data(block).len() as u64,
            ),
            Err(e) => e == Error::Io && !old(fs).disk.reliable(),
        },
{
    proof {
        if fs.wf() && fs.is_node(block) {
            lemma_node_not_free(fs.disk@, fs.header, fs.model@, block as int);
        }
    }
    if block == 0 {
        return Err(Error::NotFound);
    }
    let node = match fs.node(block) {
        Ok((_, n)) => n,
        Err(_) => {
            return Err(Error::Io);
        },
    };
    let size = match fs.node_len(block) {
        Ok(n) => n,
        Err(_) => {
            return Err(Error::Io);
        },
    };
    *stat = Stat {
        st_dev: 0,
        st_ino: block,
        st_mode: node.mode,
        st_nlink: 1,
        st_uid: node.uid,
        st_gid: node.gid,
        st_size: size,
        st_blksize: 0,
        st_blocks: 0,
        st_mtime: node.mtime,
        st_mtime_nsec: node.mtime_nsec,
        st_atime: 0,
        st_atime_nsec: 0,
        st_ctime: node.ctime,
        st_ctime_nsec: node.ctime_nsec,
    };
    Ok(0)
}

/// An open directory: its path, its node, and, where the host listed it on
/// opening, the listing and a cursor into it.
pub struct DirResource {
    pub path: String,
    pub block: u64,
    pub data: Option<Vec<u8>>,
    pub seek: usize,
}

impl DirResource {
    pub fn new(path: String, block: u64, data: Option<Vec<u8>>) -> (r: DirResource)
        ensures
            r.path == path,
            r.block == block,
            r.data == data,
            r.seek == 0,
    {
        DirResource { path, block, data, seek: 0 }
    }

    /// The listing, or nothing where there is none.
    pub open spec fn listing(&self) -> Seq<u8> {
        match self.data {
            Some(v) => v@,
            None => Seq::empty(),
        }
    }
}

impl DirResource {
    /// What `dup` returns of the handle `before`.
    pub open spec fn dup_outcome(
        before: DirResource,
        r: Result<DirResource, Error>,
    ) -> bool {
        &&& (r matches Ok(d) && d.path == before.path && d.block == before.block && d.seek == before.seek
            && d.data is Some == before.data is Some && d.listing() == before.listing())
    }

    /// What `read` returns and leaves: the handle goes from `before` to
    /// `after`, the buffer from `buf0` to `buf1`, the filesystem from `fs0`
    /// to `fs1`.
    pub open spec fn read_outcome<D: Disk>(
        before: DirResource,
        after: DirResource,
        buf0: Seq<u8>,
        buf1: Seq<u8>,
        fs0: &FileSystem<D>,
        fs1: &FileSystem<D>,
        r: Result<usize, Error>,
    ) -> bool {
        &&& fs1.same_as(fs0)
        &&& after.path == before.path
        &&& after.block == before.block
        &&& after.data == before.data
        &&& before.data is None ==> r == Err::<usize, Error>(Error::IsDir) && after.seek
            == before.seek && buf1 == buf0
        &&& (before.data is Some ==> (r matches Ok(n) && {
            let data = before.listing();
            let from = before.seek as int;
            &&& n == within(data.len() as int, from, buf0.len() as int)
            &&& after.seek == from + n
            &&& forall|q: int| 0 <= q < n ==> #[trigger] buf1[q] == data[from + q]
            &&& forall|q: int| n <= q < buf0.len() ==> #[trigger] buf1[q] == buf0[q]
        }))
    }

    /// What `write` returns and leaves: the handle goes from `before` to
    /// `after`, the filesystem from `fs0` to `fs1`.
    pub open spec fn write_outcome<D: Disk>(
        before: DirResource,
        after: DirResource,
        buf: Seq<u8>,
        fs0: &FileSystem<D>,
        fs1: &FileSystem<D>,
        r: Result<usize, Error>,
    ) -> bool {
        &&& r == Err::<usize, Error>(Error::BadFile)
        &&& fs1.same_as(fs0)
        &&& after == before
    }

    /// What `seek` returns and leaves: the handle goes from `before` to
    /// `after`, the filesystem from `fs0` to `fs1`.
    pub open spec fn seek_outcome<D: Disk>(
        before: DirResource,
        after: DirResource,
        offset: usize,
        whence: usize,
        fs0: &FileSystem<D>,
        fs1: &FileSystem<D>,
        r: Result<usize, Error>,
    ) -> bool {
        &&& fs1.same_as(fs0)
        &&& after.path == before.path
        &&& after.block == before.block
        &&& after.data == before.data
        &&& match r {
            Ok(n) => {
                let len = before.listing().len() as int;
                let base = if whence == SEEK_SET {
                    0
                } else if whence == SEEK_CUR {
                    clamp(before.seek as int, 0, len)
                } else {
                    len
                };
                &&& before.data is Some
                &&& whence == SEEK_SET || whence == SEEK_CUR || whence == SEEK_END
                &&& n == clamp(base + signed(offset), 0, len)
                &&& after.seek == n
            },
            Err(e) => {
                &&& after.seek == before.seek
                &&& e == (if before.data is None {
                    Error::BadFile
                } else {
                    Error::Invalid
                })
                &&& before.data is Some ==> !(whence == SEEK_SET || whence == SEEK_CUR
                    || whence == SEEK_END)
            },
        }
    }

    /// What `fcntl` returns and leaves: the handle goes from `before` to
    /// `after`.
    pub open spec fn fcntl_outcome(
        before: DirResource,
        after: DirResource,
        cmd: usize,
        arg: usize,
        r: Result<usize, Error>,
    ) -> bool {
        &&& r == Err::<usize, Error>(Error::BadFile)
        &&& after == before
    }

    /// What `path` returns and leaves: the buffer goes from `buf0` to
    /// `buf1`.
    pub open spec fn path_outcome(
        before: DirResource,
        buf0: Seq<u8>,
        buf1: Seq<u8>,
        r: Result<usize, Error>,
    ) -> bool {
        &&& (r matches Ok(n) && {
            let p = encode_utf8(before.path@);
            &&& n == (if p.len() < buf0.len() {
                p.len()
            } else {
                buf0.len()
            })
            &&& forall|q: int| 0 <= q < n ==> #[trigger] buf1[q] == p[q]
            &&& forall|q: int| n <= q < buf0.len() ==> #[trigger] buf1[q] == buf0[q]
        })
    }

    /// What `stat` returns and leaves: the answer goes from `stat0` to
    /// `stat1`, the filesystem from `fs0` to `fs1`.
    pub open spec fn stat_outcome<D: Disk>(
        before: DirResource,
        stat0: Stat,
        stat1: Stat,
        fs0: &FileSystem<D>,
        fs1: &FileSystem<D>,
        r: Result<usize, Error>,
    ) -> bool {
        &&& fs1.same_as(fs0)
        &&& before.block == 0 ==> r == Err::<usize, Error>(Error::NotFound)
        &&& before.block >= fs0.disk@.len() && before.block != 0 ==> r == Err::<usize, Error>(
            Error::Io,
        )
        &&& r is Err ==> stat1 == stat0
        &&& fs0.wf() && fs0.is_node(before.block) ==> match r {
            Ok(n) => n == 0 && stat1 == stat_of(
                before.block,
                fs0.record(before.block),
                fs0.data(before.block).len() as u64,
            ),
            Err(e) => e == Error::Io && !fs0.disk.reliable(),
        }
    }

    /// What `sync` returns and leaves: the handle goes from `before` to
    /// `after`.
    pub open spec fn sync_outcome(
        before: DirResource,
        after: DirResource,
        r: Result<usize, Error>,
    ) -> bool {
        &&& r == Err::<usize, Error>(Error::BadFile)
        &&& after == before
    }

    /// What `truncate` returns and leaves: the handle goes from `before`
    /// to `after`, the filesystem from `fs0` to `fs1`.
    pub open spec fn truncate_outcome<D: Disk>(
        before: DirResource,
        after: DirResource,
        len: usize,
        fs0: &FileSystem<D>,
        fs1: &FileSystem<D>,
        r: Result<usize, Error>,
    ) -> bool {
        &&& r == Err::<usize, Error>(Error::BadFile)
        &&& fs1.same_as(fs0)
        &&& after == before
    }

    /// What `utimens` returns and leaves: the handle goes from `before`
    /// to `after`, the filesystem from `fs0` to `fs1`.
    pub open spec fn utimens_outcome<D: Disk>(
        before: DirResource,
        after: DirResource,
        times: Seq<TimeSpec>,
        fs0: &FileSystem<D>,
        fs1: &FileSystem<D>,
        r: Result<usize, Error>,
    ) -> bool {
        &&& r == Err::<usize, Error>(Error::BadFile)
        &&& fs1.same_as(fs0)
        &&& after == before
    }
}

impl Resource for DirResource {
    fn dup(&self) -> (r: Result<Self, Error>)
        ensures
            Self::dup_outcome(
                *self,
                r,
            ),
    {
        let data = match &self.data {
            Some(v) => Some(slice_to_vec(v.as_slice())),
            None => None,
        };
        Ok(DirResource { path: self.path.clone(), block: self.block, data, seek: self.seek })
    }

    /// Copies the listing from the cursor on into `buf` and moves the
    /// cursor behind what was copied.
    fn read<D: Disk>(&mut self, buf: &mut [u8], fs: &mut FileSystem<D>) -> (r: Result<usize, Error>)
        ensures
            Self::read_outcome(
                *old(self),
                *final(self),
                old(buf)@,
                final(buf)@,
                old(fs),
                final(fs),
                r,
            ),
    {
        match &self.data {
            None => Err(Error::IsDir),
            Some(data) => {
                let cap = buf.len();
                let len = data.len();
                let start = self.seek;
                let mut i: usize = 0;
                while i < cap && self.seek < len
                    invariant
                        i <= cap,
                        cap == buf@.len(),
                        len == data@.len(),
                        buf@.len() == old(buf)@.len(),
                        start == old(self).seek,
                        self.seek == start + i,
                        i > 0 ==> self.seek <= len,
                        self.path == old(self).path,
                        self.block == old(self).block,
                        self.data == old(self).data,
                        self.data == Some(*data),
                        forall|q: int| 0 <= q < i ==> #[trigger] buf@[q] == data@[start + q],
                        forall|q: int| i <= q < cap ==> #[trigger] buf@[q] == old(buf)@[q],
                    decreases cap - i,
                {
                    buf[i] = data[self.seek];
                    i += 1;
                    self.seek += 1;
                }
                Ok(i)
            },
        }
    }

    fn write<D: Disk>(&mut self, buf: &[u8], fs: &mut FileSystem<D>) -> (r: Result<usize, Error>)
        ensures
            Self::write_outcome(
                *old(self),
                *final(self),
                buf@,
                old(fs),
                final(fs),
                r,
            ),
    {
        Err(Error::BadFile)
    }

    /// Moves the cursor within the listing, counting from its start, from
    /// the cursor or from its end; the cursor stays within the listing.
    fn seek<D: Disk>(&mut self, offset: usize, whence: usize, fs: &mut FileSystem<D>) -> (r: Result<
        usize,
        Error,
    >)
        ensures
            Self::seek_outcome(
                *old(self),
                *final(self),
                offset,
                whence,
                old(fs),
                final(fs),
                r,
            ),
    {
        let len = match &self.data {
            None => {
                return Err(Error::BadFile);
            },
            Some(data) => data.len(),
        };
        let base: usize = if whence == SEEK_SET {
            0
        } else if whence == SEEK_CUR {
            if self.seek > len {
                len
            } else {
                self.seek
            }
        } else if whence == SEEK_END {
            len
        } else {
            return Err(Error::Invalid);
        };
        let pos = seek_to(base as u64, offset, len as u64);
        self.seek = pos as usize;
        Ok(self.seek)
    }

    fn fcntl(&mut self, cmd: usize, arg: usize) -> (r: Result<usize, Error>)
        ensures
            Self::fcntl_outcome(
                *old(self),
                *final(self),
                cmd,
                arg,
                r,
            ),
    {
        Err(Error::BadFile)
    }

    /// Copies the bytes of the path into `buf`, as many as it takes.
    fn path(&self, buf: &mut [u8]) -> (r: Result<usize, Error>)
        ensures
            Self::path_outcome(
                *self,
                old(buf)@,
                final(buf)@,
                r,
            ),
    {
        Ok(copy_prefix(self.path.as_str().as_bytes(), buf))
    }

    fn stat<D: Disk>(&self, stat: &mut Stat, fs: &mut FileSystem<D>) -> (r: Result<usize, Error>)
        ensures
            Self::stat_outcome(
                *self,
                *old(stat),
                *final(stat),
                old(fs),
                final(fs),
                r,
            ),
    {
        stat_node(self.block, stat, fs)
    }

    fn sync(&mut self) -> (r: Result<usize, Error>)
        ensures
            Self::sync_outcome(
                *old(self),
                *final(self),
                r,
            ),
    {
        Err(Error::BadFile)
    }

    fn truncate<D: Disk>(&mut self, len: usize, fs: &mut FileSystem<D>) -> (r: Result<usize, Error>)
        ensures
            Self::truncate_outcome(
                *old(self),
                *final(self),
                len,
                old(fs),
                final(fs),
                r,
            ),
    {
        Err(Error::BadFile)
    }

    fn utimens<D: Disk>(&mut self, times: &[TimeSpec], fs: &mut FileSystem<D>) -> (r: Result<usize, Error>)
        ensures
            Self::utimens_outcome(
                *old(self),
                *final(self),
                times@,
                old(fs),
                final(fs),
                r,
            ),
    {
        Err(Error::BadFile)
    }
}

} // verus!

verus! {

/// An open file: its path, its node, the flags it was opened with, a
/// cursor, and the user who opened it.
pub struct FileResource {
    pub path: String,
    pub block: u64,
    pub flags: usize,
    pub seek: u64,
    pub uid: u32,
}

impl FileResource {
    pub fn new(path: String, block: u64, flags: usize, seek: u64, uid: u32) -> (r: FileResource)
        ensures
            r.path == path,
            r.block == block,
            r.flags == flags,
            r.seek == seek,
            r.uid == uid,
    {
        FileResource { path, block, flags, seek, uid }
    }

    /// The handle with another cursor.
    pub open spec fn moved_to(self, seek: u64) -> FileResource {
        FileResource { seek, ..self }
    }

    /// Whether the handle may read.
    pub fn readable(&self) -> (r: bool)
        ensures
            r == may_read(self.flags),
    {
        self.flags & O_ACCMODE == O_RDWR || self.flags & O_ACCMODE == O_RDONLY
    }

    /// Whether the handle may write.
    pub fn writable(&self) -> (r: bool)
        ensures
            r == may_write(self.flags),
    {
        self.flags & O_ACCMODE == O_RDWR || self.flags & O_ACCMODE == O_WRONLY
    }

    /// Writes `buf` at the cursor, with `mtime` as the time of the write,
    /// and moves the cursor behind what was written. A handle that was not
    /// opened for writing is refused.
    pub fn write_at<D: Disk>(
        &mut self,
        buf: &[u8],
        fs: &mut FileSystem<D>,
        mtime: u64,
        mtime_nsec: u32,
    ) -> (r: Result<usize, Error>)
        requires
            old(fs).disk.inv(),
        ensures
            final(fs).disk.inv(),
            r is Err ==> *final(self) == *old(self),
            !may_write(old(self).flags) ==> r == Err::<usize, Error>(Error::BadFile) && final(fs).same_as(old(fs)),
            may_write(old(self).flags) ==> !(r == Err::<usize, Error>(Error::BadFile)),
            may_write(old(self).flags) && old(fs).wf() && old(fs).is_node(old(self).block)
                ==> match r {
                Ok(n) => {
                    let block = old(self).block;
                    let data = old(fs).data(block);
                    let rec = old(fs).record(block);
                    &&& n == buf@.len()
                    &&& *final(self) == old(self).moved_to(
                        if old(self).seek + n > u64::MAX {
                            u64::MAX
                        } else {
                            (old(self).seek + n) as u64
                        },
                    )
                    &&& final(fs).wf()
                    &&& final(fs).is_node(block)
                    &&& written(data, old(self).seek as int, buf@, final(fs).data(block))
                    &&& final(fs).others_kept(old(fs), block)
                    &&& final(fs).free_blocks() == old(fs).free_blocks() - (if old(self).seek
                        + buf@.len() > data.len() {
                        old(fs).growth_run(block, old(self).seek + buf@.len())
                    } else {
                        0
                    })
                    &&& final(fs).record(block).same_meta(
                        if old(self).seek + buf@.len() > data.len() {
                            NodeView { mtime, mtime_nsec, ..rec }
                        } else {
                            rec
                        },
                    )
                    &&& final(fs).gives_less(
                        old(fs),
                        if old(self).seek + buf@.len() > data.len() {
                            old(fs).growth_run(block, old(self).seek + buf@.len())
                        } else {
                            0
                        },
                    )
                    &&& old(fs).valid() ==> final(fs).valid()
                },
                Err(e) => {
                    &&& e == Error::IsDir || e == Error::NoSpace || e == Error::Io
                    &&& e == Error::Io ==> !old(fs).disk.reliable() && final(fs).wf()
                    &&& e == Error::IsDir ==> old(fs).record(old(self).block).is_dir() && final(fs).same_as(old(fs))
                    &&& e == Error::NoSpace ==> {
                        &&& old(self).seek + buf@.len() > old(fs).data(old(self).block).len()
                        &&& final(fs).wf()
                        &&& final(fs).nodes_kept(old(fs))
                        &&& final(fs).free_blocks() == old(fs).free_blocks()
                        &&& old(self).seek + buf@.len() > u64::MAX || !old(fs).can_give(
                            old(fs).growth_run(old(self).block, old(self).seek + buf@.len()),
                        )
                    }
                },
            },
    {
        if !self.writable() {
            return Err(Error::BadFile);
        }
        let count = match fs.write_node(self.block, self.seek, buf, mtime, mtime_nsec) {
            Ok(n) => n,
            Err(Error::IsDir) => {
                return Err(Error::IsDir);
            },
            Err(Error::NoSpace) => {
                return Err(Error::NoSpace);
            },
            Err(_) => {
                return Err(Error::Io);
            },
        };
        self.seek = match self.seek.checked_add(count as u64) {
            Some(v) => v,
            None => u64::MAX,
        };
        Ok(count)
    }
}

impl FileResource {
    /// What `dup` returns of the handle `before`.
    pub open spec fn dup_outcome(
        before: FileResource,
        r: Result<FileResource, Error>,
    ) -> bool {
        &&& r == Ok::<FileResource, Error>(before)
    }

    /// What `read` returns and leaves: the handle goes from `before` to
    /// `after`, the buffer from `buf0` to `buf1`, the filesystem from `fs0`
    /// to `fs1`.
    pub open spec fn read_outcome<D: Disk>(
        before: FileResource,
        after: FileResource,
        buf0: Seq<u8>,
        buf1: Seq<u8>,
        fs0: &FileSystem<D>,
        fs1: &FileSystem<D>,
        r: Result<usize, Error>,
    ) -> bool {
        &&& fs1.same_as(fs0)
        &&& r is Err ==> after == before
        &&& !may_read(before.flags) ==> r == Err::<usize, Error>(Error::BadFile) && buf1
            == buf0
        &&& may_read(before.flags) ==> !(r == Err::<usize, Error>(Error::BadFile))
        &&& may_read(before.flags) && fs0.wf() && fs0.is_node(before.block)
            ==> match r {
            Ok(n) => {
                let data = fs0.data(before.block);
                let from = before.seek as int;
                &&& n == within(data.len() as int, from, buf0.len() as int)
                &&& after == before.moved_to(
                    if from + n > u64::MAX {
                        u64::MAX
                    } else {
                        (from + n) as u64
                    },
                )
                &&& n > 0 ==> buf1.subrange(0, n as int) == data.subrange(from, from + n)
                &&& buf1.subrange(n as int, buf0.len() as int) == buf0.subrange(
                    n as int,
                    buf0.len() as int,
                )
            },
            Err(e) => e == Error::Io && !fs0.disk.reliable(),
        }
    }

    /// What `write` returns and leaves: the handle goes from `before` to
    /// `after`, the filesystem from `fs0` to `fs1`.
    pub open spec fn write_outcome<D: Disk>(
        before: FileResource,
        after: FileResource,
        buf: Seq<u8>,
        fs0: &FileSystem<D>,
        fs1: &FileSystem<D>,
        r: Result<usize, Error>,
    ) -> bool {
        &&& r is Err ==> after == before
        &&& !may_write(before.flags) ==> r == Err::<usize, Error>(Error::BadFile) && fs1.same_as(fs0)
        &&& may_write(before.flags) ==> !(r == Err::<usize, Error>(Error::BadFile))
        &&& may_write(before.flags) && fs0.wf() && fs0.is_node(before.block)
            ==> match r {
            Ok(n) => {
                let block = before.block;
                let data = fs0.data(block);
                let rec = fs0.record(block);
                &&& n == buf.len()
                &&& after == before.moved_to(
                    if before.seek + n > u64::MAX {
                        u64::MAX
                    } else {
                        (before.seek + n) as u64
                    },
                )
                &&& fs1.wf()
                &&& fs1.is_node(block)
                &&& written(data, before.seek as int, buf, fs1.data(block))
                &&& fs1.others_kept(fs0, block)
                &&& fs1.free_blocks() == fs0.free_blocks() - (if before.seek
                    + buf.len() > data.len() {
                    fs0.growth_run(block, before.seek + buf.len())
                } else {
                    0
                })
                &&& before.seek + buf.len() <= data.len() ==> fs1.record(
                    block,
                ).same_meta(rec)
                &&& before.seek + buf.len() > data.len() ==> exists|secs: u64, nanos: u32|
                    nanos < 1_000_000_000 && #[trigger] fs1.record(block).same_meta(
                        NodeView { mtime: secs, mtime_nsec: nanos, ..rec },
                    )
                &&& fs1.gives_less(
                    fs0,
                    if before.seek + buf.len() > data.len() {
                        fs0.growth_run(block, before.seek + buf.len())
                    } else {
                        0
                    },
                )
                &&& fs0.valid() ==> fs1.valid()
            },
            Err(e) => {
                &&& e == Error::IsDir || e == Error::NoSpace || e == Error::Io
                &&& e == Error::Io ==> !fs0.disk.reliable() && fs1.wf()
                &&& e == Error::IsDir ==> fs0.record(before.block).is_dir() && fs1.same_as(fs0)
                &&& e == Error::NoSpace ==> {
                    &&& before.seek + buf.len() > fs0.data(before.block).len()
                    &&& fs1.wf()
                    &&& fs1.nodes_kept(fs0)
                    &&& fs1.free_blocks() == fs0.free_blocks()
                    &&& before.seek + buf.len() > u64::MAX || !fs0.can_give(
                        fs0.growth_run(before.block, before.seek + buf.len()),
                    )
                }
            },
        }
    }

    /// What `seek` returns and leaves: the handle goes from `before` to
    /// `after`, the filesystem from `fs0` to `fs1`.
    pub open spec fn seek_outcome<D: Disk>(
        before: FileResource,
        after: FileResource,
        offset: usize,
        whence: usize,
        fs0: &FileSystem<D>,
        fs1: &FileSystem<D>,
        r: Result<usize, Error>,
    ) -> bool {
        &&& fs1.same_as(fs0)
        &&& r is Err ==> after == before
        &&& fs0.wf() && fs0.is_node(before.block) ==> match r {
            Ok(n) => {
                let size = fs0.data(before.block).len() as int;
                let base = if whence == SEEK_SET {
                    0
                } else if whence == SEEK_CUR {
                    before.seek as int
                } else {
                    size
                };
                let pos = clamp(base + signed(offset), 0, u64::MAX as int);
                &&& whence == SEEK_SET || whence == SEEK_CUR || whence == SEEK_END
                &&& after == before.moved_to(pos as u64)
                &&& n == (if pos > usize::MAX {
                    usize::MAX as int
                } else {
                    pos
                })
            },
            Err(e) => {
                &&& e == Error::Invalid || e == Error::Io
                &&& e == Error::Io ==> !fs0.disk.reliable() && fs1.wf()
                &&& e == Error::Invalid <==> !(whence == SEEK_SET || whence == SEEK_CUR
                    || whence == SEEK_END)
            },
        }
    }

    /// What `fcntl` returns and leaves: the handle goes from `before` to
    /// `after`.
    pub open spec fn fcntl_outcome(
        before: FileResource,
        after: FileResource,
        cmd: usize,
        arg: usize,
        r: Result<usize, Error>,
    ) -> bool {
        &&& cmd == F_GETFL ==> r == Ok::<usize, Error>(before.flags) && after == before
        &&& cmd == F_SETFL ==> r == Ok::<usize, Error>(0) && after == (FileResource {
            flags: (before.flags & O_ACCMODE) | (arg & !O_ACCMODE),
            ..before
        })
        &&& cmd != F_GETFL && cmd != F_SETFL ==> r == Err::<usize, Error>(Error::Invalid) && after == before
    }

    /// What `path` returns and leaves: the buffer goes from `buf0` to
    /// `buf1`.
    pub open spec fn path_outcome(
        before: FileResource,
        buf0: Seq<u8>,
        buf1: Seq<u8>,
        r: Result<usize, Error>,
    ) -> bool {
        &&& (r matches Ok(n) && {
            let p = encode_utf8(before.path@);
            &&& n == (if p.len() < buf0.len() {
                p.len()
            } else {
                buf0.len()
            })
            &&& forall|q: int| 0 <= q < n ==> #[trigger] buf1[q] == p[q]
            &&& forall|q: int| n <= q < buf0.len() ==> #[trigger] buf1[q] == buf0[q]
        })
    }

    /// What `stat` returns and leaves: the answer goes from `stat0` to
    /// `stat1`, the filesystem from `fs0` to `fs1`.
    pub open spec fn stat_outcome<D: Disk>(
        before: FileResource,
        stat0: Stat,
        stat1: Stat,
        fs0: &FileSystem<D>,
        fs1: &FileSystem<D>,
        r: Result<usize, Error>,
    ) -> bool {
        &&& fs1.same_as(fs0)
        &&& before.block == 0 ==> r == Err::<usize, Error>(Error::NotFound)
        &&& before.block >= fs0.disk@.len() && before.block != 0 ==> r == Err::<usize, Error>(
            Error::Io,
        )
        &&& r is Err ==> stat1 == stat0
        &&& fs0.wf() && fs0.is_node(before.block) ==> match r {
            Ok(n) => n == 0 && stat1 == stat_of(
                before.block,
                fs0.record(before.block),
                fs0.data(before.block).len() as u64,
            ),
            Err(e) => e == Error::Io && !fs0.disk.reliable(),
        }
    }

    /// What `sync` returns and leaves: the handle goes from `before` to
    /// `after`.
    pub open spec fn sync_outcome(
        before: FileResource,
        after: FileResource,
        r: Result<usize, Error>,
    ) -> bool {
        &&& r == Ok::<usize, Error>(0)
        &&& after == before
    }

    /// What `truncate` returns and leaves: the handle goes from `before`
    /// to `after`, the filesystem from `fs0` to `fs1`.
    pub open spec fn truncate_outcome<D: Disk>(
        before: FileResource,
        after: FileResource,
        len: usize,
        fs0: &FileSystem<D>,
        fs1: &FileSystem<D>,
        r: Result<usize, Error>,
    ) -> bool {
        &&& after == before
        &&& !may_write(before.flags) ==> r == Err::<usize, Error>(Error::BadFile) && fs1.same_as(
            fs0,
        )
        &&& may_write(before.flags) ==> !(r == Err::<usize, Error>(Error::BadFile))
        &&& may_write(before.flags) && fs0.wf() && fs0.is_node(before.block) ==> match r {
            Ok(n) => {
                let data = fs0.data(before.block);
                &&& n == 0
                &&& fs1.wf()
                &&& fs1.is_node(before.block)
                &&& fs1.data(before.block).len() == len
                &&& len <= data.len() ==> fs1.data(before.block) == data.take(len as int)
                &&& len >= data.len() ==> fs1.data(before.block).take(data.len() as int)
                    == data
                &&& fs1.others_kept(fs0, before.block)
                &&& fs0.valid() && !fs0.record(before.block).is_dir() ==> fs1.valid()
                &&& len > data.len() ==> fs1.free_blocks() == fs0.free_blocks() - fs0.growth_run(before.block, len as int)
                &&& len <= data.len() ==> fs1.free_blocks() >= fs0.free_blocks() + (
                data.len() - len) / 512
                &&& fs1.gives_less(
                    fs0,
                    if len > data.len() {
                        fs0.growth_run(before.block, len as int)
                    } else {
                        0
                    },
                )
            },
            Err(e) => {
                &&& e == Error::NoSpace || e == Error::Io
                &&& e == Error::Io ==> !fs0.disk.reliable() && fs1.wf()
                &&& e == Error::NoSpace ==> {
                    &&& len > fs0.data(before.block).len()
                    &&& fs1.wf()
                    &&& fs1.nodes_kept(fs0)
                    &&& fs1.free_blocks() == fs0.free_blocks()
                    &&& !fs0.can_give(fs0.growth_run(before.block, len as int))
                }
            },
        }
    }

    /// What `utimens` returns and leaves: the handle goes from `before`
    /// to `after`, the filesystem from `fs0` to `fs1`.
    pub open spec fn utimens_outcome<D: Disk>(
        before: FileResource,
        after: FileResource,
        times: Seq<TimeSpec>,
        fs0: &FileSystem<D>,
        fs1: &FileSystem<D>,
        r: Result<usize, Error>,
    ) -> bool {
        &&& after == before
        &&& fs0.wf() && fs0.is_node(before.block) ==> match r {
            Ok(n) => {
                let rec = fs0.record(before.block);
                &&& n == 0
                &&& rec.uid == before.uid || before.uid == 0
                &&& times.len() < 2 ==> fs1.same_as(fs0)
                &&& times.len() >= 2 ==> {
                    &&& fs1.wf()
                    &&& fs1.only_meta_changed(fs0, before.block)
                    &&& fs1.record(before.block) == (NodeView {
                        mtime: times[1].tv_sec as u64,
                        mtime_nsec: times[1].tv_nsec as u32,
                        ..rec
                    })
                    &&& fs0.valid() ==> fs1.valid()
                }
            },
            Err(e) => {
                &&& e == Error::Io ==> !fs0.disk.reliable() && fs1.wf()
                &&& e == Error::BadFile || e == Error::Io
                &&& e == Error::BadFile ==> !(fs0.record(before.block).uid == before.uid
                    || before.uid == 0)
                &&& !(fs0.record(before.block).uid == before.uid || before.uid == 0)
                    ==> e == Error::BadFile || e == Error::Io
                &&& e == Error::BadFile ==> fs1.same_as(fs0)
            },
        }
    }
}

impl Resource for FileResource {
    fn dup(&self) -> (r: Result<Self, Error>)
        ensures
            Self::dup_outcome(
                *self,
                r,
            ),
    {
        Ok(
            FileResource {
                path: self.path.clone(),
                block: self.block,
                flags: self.flags,
                seek: self.seek,
                uid: self.uid,
            },
        )
    }

    /// Reads from the cursor on into `buf` and moves the cursor behind what
    /// was read. A handle that was not opened for reading is refused.
    fn read<D: Disk>(&mut self, buf: &mut [u8], fs: &mut FileSystem<D>) -> (r: Result<usize, Error>)
        ensures
            Self::read_outcome(
                *old(self),
                *final(self),
                old(buf)@,
                final(buf)@,
                old(fs),
                final(fs),
                r,
            ),
    {
        if !self.readable() {
            return Err(Error::BadFile);
        }
        let count = match fs.read_node(self.block, self.seek, buf) {
            Ok(n) => n,
            Err(_) => {
                return Err(Error::Io);
            },
        };
        self.seek = match self.seek.checked_add(count as u64) {
            Some(v) => v,
            None => u64::MAX,
        };
        Ok(count)
    }

    /// Writes `buf` at the cursor, with the wall clock as the time of the
    /// write; a clock that stands before the Unix epoch counts as the
    /// epoch. See `write_at`.
    fn write<D: Disk>(&mut self, buf: &[u8], fs: &mut FileSystem<D>) -> (r: Result<usize, Error>)
        ensures
            Self::write_outcome(
                *old(self),
                *final(self),
                buf@,
                old(fs),
                final(fs),
                r,
            ),
    {
        let (secs, nanos) = match now() {
            Some(t) => t,
            None => (0, 0),
        };
        let r = self.write_at(buf, fs, secs, nanos);
        proof {
            let block = old(self).block;
            if r is Ok && old(fs).wf() && old(fs).is_node(block) && old(self).seek + buf@.len()
                > old(fs).data(block).len() {
                assert(nanos < 1_000_000_000 && fs.record(block).same_meta(
                    NodeView { mtime: secs, mtime_nsec: nanos, ..old(fs).record(block) },
                ));
            }
        }
        r
    }

    /// Moves the cursor, counting from the start of the file, from the
    /// cursor or from the end of the file. The cursor may pass the end; it
    /// stops at zero.
    fn seek<D: Disk>(&mut self, offset: usize, whence: usize, fs: &mut FileSystem<D>) -> (r: Result<
        usize,
        Error,
    >)
        ensures
            Self::seek_outcome(
                *old(self),
                *final(self),
                offset,
                whence,
                old(fs),
                final(fs),
                r,
            ),
    {
        proof {
            if fs.wf() && fs.is_node(self.block) {
                lemma_node_not_free(fs.disk@, fs.header, fs.model@, self.block as int);
            }
        }
        if !(whence == SEEK_SET || whence == SEEK_CUR || whence == SEEK_END) {
            return Err(Error::Invalid);
        }
        let size = match fs.node_len(self.block) {
            Ok(n) => n,
            Err(e) => {
                return Err(e);
            },
        };
        let base: u64 = if whence == SEEK_SET {
            0
        } else if whence == SEEK_CUR {
            self.seek
        } else {
            size
        };
        self.seek = seek_to(base, offset, u64::MAX);
        if self.seek > usize::MAX as u64 {
            Ok(usize::MAX)
        } else {
            Ok(self.seek as usize)
        }
    }

    /// `F_GETFL` gives the flags. `F_SETFL` sets them, but for the access
    /// mode, which a handle keeps for life.
    fn fcntl(&mut self, cmd: usize, arg: usize) -> (r: Result<usize, Error>)
        ensures
            Self::fcntl_outcome(
                *old(self),
                *final(self),
                cmd,
                arg,
                r,
            ),
    {
        if cmd == F_GETFL {
            Ok(self.flags)
        } else if cmd == F_SETFL {
            self.flags = (self.flags & O_ACCMODE) | (arg & !O_ACCMODE);
            Ok(0)
        } else {
            Err(Error::Invalid)
        }
    }

    /// Copies the bytes of the path into `buf`, as many as it takes.
    fn path(&self, buf: &mut [u8]) -> (r: Result<usize, Error>)
        ensures
            Self::path_outcome(
                *self,
                old(buf)@,
                final(buf)@,
                r,
            ),
    {
        Ok(copy_prefix(self.path.as_str().as_bytes(), buf))
    }

    fn stat<D: Disk>(&self, stat: &mut Stat, fs: &mut FileSystem<D>) -> (r: Result<usize, Error>)
        ensures
            Self::stat_outcome(
                *self,
                *old(stat),
                *final(stat),
                old(fs),
                final(fs),
                r,
            ),
    {
        stat_node(self.block, stat, fs)
    }

    /// Nothing to do: every write has reached the disk when it returns.
    fn sync(&mut self) -> (r: Result<usize, Error>)
        ensures
            Self::sync_outcome(
                *old(self),
                *final(self),
                r,
            ),
    {
        Ok(0)
    }

    /// Sets the length of the file. A handle that was not opened for
    /// writing is refused.
    fn truncate<D: Disk>(&mut self, len: usize, fs: &mut FileSystem<D>) -> (r: Result<usize, Error>)
        ensures
            Self::truncate_outcome(
                *old(self),
                *final(self),
                len,
                old(fs),
                final(fs),
                r,
            ),
    {
        if !self.writable() {
            return Err(Error::BadFile);
        }
        proof {
            if fs.wf() && fs.is_node(self.block) {
                lemma_node_not_free(fs.disk@, fs.header, fs.model@, self.block as int);
            }
        }
        match fs.node_set_len(self.block, len as u64) {
            Ok(()) => Ok(0),
            Err(Error::NoSpace) => Err(Error::NoSpace),
            Err(_) => Err(Error::Io),
        }
    }

    /// Sets the modification time of the file to the second of `times`, if
    /// there is one. Only the owner of the file and user 0 may.
    fn utimens<D: Disk>(&mut self, times: &[TimeSpec], fs: &mut FileSystem<D>) -> (r: Result<
        usize,
        Error,
    >)
        ensures
            Self::utimens_outcome(
                *old(self),
                *final(self),
                times@,
                old(fs),
                final(fs),
                r,
            ),
    {
        proof {
            if fs.wf() && fs.is_node(self.block) {
                lemma_node_not_free(fs.disk@, fs.header, fs.model@, self.block as int);
            }
        }
        let node = match fs.node(self.block) {
            Ok((_, n)) => n,
            Err(_) => {
                return Err(Error::Io);
            },
        };
        if node.uid == self.uid || self.uid == 0 {
            if times.len() > 1 {
                let t = times[1];
                let secs = #[verifier::truncate]
                (t.tv_sec as u64);
                let nanos = #[verifier::truncate]
                (t.tv_nsec as u32);
                let ghost pre = *fs;
                match fs.touch(self.block, secs, nanos) {
                    Ok(()) => {},
                    Err(_) => {
                        return Err(Error::Io);
                    },
                }
                proof {
                    if old(fs).valid() && old(fs).is_node(self.block) {
                        pre.lemma_same_valid(old(fs));
                    }
                }
            }
            Ok(0)
        } else {
            Err(Error::BadFile)
        }
    }
}

} // verus!
