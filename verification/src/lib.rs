//! Core metadata engine of a thin-provisioning volume manager's offline
//! toolkit: on-disk block codecs, reference-counting space maps, a
//! copy-on-write B-tree, a write batcher, and the superblock lifecycle.

pub mod batcher;
pub mod btree;
pub mod codec;
pub mod errors;
pub mod generator;
pub mod mapping;
pub mod space_map;
pub mod space_map_disk;
pub mod superblock;
