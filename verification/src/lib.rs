//! A small block-addressed filesystem: header, free list, extent-carrying
//! nodes, the operations on files and directories, and the per-open handles
//! that drive them.

pub mod error;
pub mod flag;
pub mod disk;
pub mod codec;
pub mod header;
pub mod node;
pub mod model;
pub mod frame;
pub mod rewrite;
pub mod count;
pub mod fs;
pub mod freelist;
pub mod fit;
pub mod span;
pub mod content;
pub mod extend;
pub mod reshape;
pub mod resize;
pub mod shape;
pub mod grow;
pub mod write;
pub mod tree;
pub mod dir;
pub mod entry;
pub mod resource;
pub mod handle;
pub mod attr;
pub mod mount;
pub mod laws;
