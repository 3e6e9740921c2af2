use vstd::prelude::*;
use crate::disk::Disk;
use crate::error::Error;
use crate::fs::FileSystem;
use crate::resource::{DirResource, FileResource, Resource, Stat, TimeSpec};

verus! {

/// An open handle of either kind. Each operation is that of the handle
/// within, and the kind never changes.
pub enum Handle {
    Dir(DirResource),
    File(FileResource),
}

impl Resource for Handle {
    fn dup(&self) -> (r: Result<Self, Error>)
        ensures
            match *self {
                Handle::Dir(d) => r matches Ok(Handle::Dir(c)) && DirResource::dup_outcome(d, Ok(c)),
                Handle::File(f) => r matches Ok(Handle::File(c)) && FileResource::dup_outcome(f, Ok(c)),
            },
    {
        match self {
            Handle::Dir(d) => match d.dup() {
                Ok(c) => Ok(Handle::Dir(c)),
                Err(e) => Err(e),
            },
            Handle::File(f) => match f.dup() {
                Ok(c) => Ok(Handle::File(c)),
                Err(e) => Err(e),
            },
        }
    }

    fn read<D: Disk>(&mut self, buf: &mut [u8], fs: &mut FileSystem<D>) -> (r: Result<usize, Error>)
        ensures
            match *old(self) {
                Handle::Dir(d) => *final(self) matches Handle::Dir(d1) && DirResource::read_outcome(
                    d, d1, old(buf)@, final(buf)@, old(fs), final(fs), r,
                ),
                Handle::File(f) => *final(self) matches Handle::File(f1) && FileResource::read_outcome(
                    f, f1, old(buf)@, final(buf)@, old(fs), final(fs), r,
                ),
            },
    {
        match self {
            Handle::Dir(d) => d.read(buf, fs),
            Handle::File(f) => f.read(buf, fs),
        }
    }

    fn write<D: Disk>(&mut self, buf: &[u8], fs: &mut FileSystem<D>) -> (r: Result<usize, Error>)
        ensures
            match *old(self) {
                Handle::Dir(d) => *final(self) matches Handle::Dir(d1) && DirResource::write_outcome(
                    d, d1, buf@, old(fs), final(fs), r,
                ),
                Handle::File(f) => *final(self) matches Handle::File(f1) && FileResource::write_outcome(
                    f, f1, buf@, old(fs), final(fs), r,
                ),
            },
    {
        match self {
            Handle::Dir(d) => d.write(buf, fs),
            Handle::File(f) => f.write(buf, fs),
        }
    }

    fn seek<D: Disk>(&mut self, offset: usize, whence: usize, fs: &mut FileSystem<D>) -> (r: Result<
        usize,
        Error,
    >)
        ensures
            match *old(self) {
                Handle::Dir(d) => *final(self) matches Handle::Dir(d1) && DirResource::seek_outcome(
                    d, d1, offset, whence, old(fs), final(fs), r,
                ),
                Handle::File(f) => *final(self) matches Handle::File(f1) && FileResource::seek_outcome(
                    f, f1, offset, whence, old(fs), final(fs), r,
                ),
            },
    {
        match self {
            Handle::Dir(d) => d.seek(offset, whence, fs),
            Handle::File(f) => f.seek(offset, whence, fs),
        }
    }

    fn fcntl(&mut self, cmd: usize, arg: usize) -> (r: Result<usize, Error>)
        ensures
            match *old(self) {
                Handle::Dir(d) => *final(self) matches Handle::Dir(d1) && DirResource::fcntl_outcome(
                    d, d1, cmd, arg, r,
                ),
                Handle::File(f) => *final(self) matches Handle::File(f1) && FileResource::fcntl_outcome(
                    f, f1, cmd, arg, r,
                ),
            },
    {
        match self {
            Handle::Dir(d) => d.fcntl(cmd, arg),
            Handle::File(f) => f.fcntl(cmd, arg),
        }
    }

    fn path(&self, buf: &mut [u8]) -> (r: Result<usize, Error>)
        ensures
            match *self {
                Handle::Dir(d) => DirResource::path_outcome(d, old(buf)@, final(buf)@, r),
                Handle::File(f) => FileResource::path_outcome(f, old(buf)@, final(buf)@, r),
            },
    {
        match self {
            Handle::Dir(d) => d.path(buf),
            Handle::File(f) => f.path(buf),
        }
    }

    fn stat<D: Disk>(&self, stat: &mut Stat, fs: &mut FileSystem<D>) -> (r: Result<usize, Error>)
        ensures
            match *self {
                Handle::Dir(d) => DirResource::stat_outcome(
                    d,
                    *old(stat),
                    *final(stat),
                    old(fs),
                    final(fs),
                    r,
                ),
                Handle::File(f) => FileResource::stat_outcome(
                    f,
                    *old(stat),
                    *final(stat),
                    old(fs),
                    final(fs),
                    r,
                ),
            },
    {
        match self {
            Handle::Dir(d) => d.stat(stat, fs),
            Handle::File(f) => f.stat(stat, fs),
        }
    }

    fn sync(&mut self) -> (r: Result<usize, Error>)
        ensures
            match *old(self) {
                Handle::Dir(d) => *final(self) matches Handle::Dir(d1) && DirResource::sync_outcome(
                    d, d1, r,
                ),
                Handle::File(f) => *final(self) matches Handle::File(f1) && FileResource::sync_outcome(
                    f, f1, r,
                ),
            },
    {
        match self {
            Handle::Dir(d) => d.sync(),
            Handle::File(f) => f.sync(),
        }
    }

    fn truncate<D: Disk>(&mut self, len: usize, fs: &mut FileSystem<D>) -> (r: Result<usize, Error>)
        ensures
            match *old(self) {
                Handle::Dir(d) => *final(self) matches Handle::Dir(d1) && DirResource::truncate_outcome(
                    d, d1, len, old(fs), final(fs), r,
                ),
                Handle::File(f) => *final(self) matches Handle::File(f1) && FileResource::truncate_outcome(
                    f, f1, len, old(fs), final(fs), r,
                ),
            },
    {
        match self {
            Handle::Dir(d) => d.truncate(len, fs),
            Handle::File(f) => f.truncate(len, fs),
        }
    }

    fn utimens<D: Disk>(&mut self, times: &[TimeSpec], fs: &mut FileSystem<D>) -> (r: Result<usize, Error>)
        ensures
            match *old(self) {
                Handle::Dir(d) => *final(self) matches Handle::Dir(d1) && DirResource::utimens_outcome(
                    d, d1, times@, old(fs), final(fs), r,
                ),
                Handle::File(f) => *final(self) matches Handle::File(f1) && FileResource::utimens_outcome(
                    f, f1, times@, old(fs), final(fs), r,
                ),
            },
    {
        match self {
            Handle::Dir(d) => d.utimens(times, fs),
            Handle::File(f) => f.utimens(times, fs),
        }
    }
}

} // verus!
