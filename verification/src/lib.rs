//! A voxel-world core: chunked block storage with per-slab dirty tracking,
//! mesh generation with corner-occlusion shading, and the binary message
//! codec and server-side session logic that synchronise world state between
//! an authoritative server and its clients.

pub mod chunk;
pub mod directory;
pub mod protocol;
pub mod mesh;
pub mod server;
pub mod client;
