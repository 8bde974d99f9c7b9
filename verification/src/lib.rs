//! A verified cache-archive engine: packs files, directories and symbolic
//! links into a reproducible, zstd-compressed tape archive, and plans the
//! safe restoration of such an archive under an anchor directory, resisting
//! path-traversal through entry names and symbolic links.

pub mod byteops;
pub mod create;
pub mod entry;
pub mod error;
pub mod graph;
pub mod linkname;
pub mod paths;
pub mod restore;
pub mod tario;
pub mod validate;
pub mod zstdio;
