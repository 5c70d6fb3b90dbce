//! Verified core of the block device helpers: reading `lsblk` output,
//! size strings, device-tree and partition-table bookkeeping, the decisions
//! taken around loopback devices, and the split of a declared path into
//! the parent to resolve and the leaf to keep.

pub mod device;
pub mod loopback;
pub mod lsblk;
pub mod num;
pub mod partition;
pub mod path_parts;
pub mod size;
pub mod text;
