use vstd::prelude::*;

verus! {

/// Bytes in one block, the unit of disk traffic.
pub const BLOCK_SIZE: u64 = 512;

pub const O_RDONLY: usize = 0x0001_0000;
pub const O_WRONLY: usize = 0x0002_0000;
pub const O_RDWR: usize = 0x0003_0000;
/// The bits of the open flags that hold the access mode.
pub const O_ACCMODE: usize = 0x0003_0000;

pub const F_GETFL: usize = 3;
pub const F_SETFL: usize = 4;

pub const SEEK_SET: usize = 0;
pub const SEEK_CUR: usize = 1;
pub const SEEK_END: usize = 2;

/// The bits of a node's mode that tell its type.
pub const MODE_TYPE: u32 = 0xF000;
pub const MODE_DIR: u32 = 0x4000;
pub const MODE_FILE: u32 = 0x8000;
pub const MODE_SYMLINK: u32 = 0xA000;
/// The bits of a node's mode that hold its permissions.
pub const MODE_PERM: u32 = 0x0FFF;

} // verus!
