//! AlbumFS: a small block filesystem whose blocks live in the low bits of a
//! pool of photos. This crate holds the verified logic: the carrier codecs
//! that hide chunks in pixel and coefficient data, the block store, the
//! on-disk structures and the filesystem operations. Decoding and saving the
//! image files themselves is left to the caller.

pub mod fs;
pub mod layout;
pub mod primitives;
pub mod stego;
