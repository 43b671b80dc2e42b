//! An in-memory model of the Apple Partition Map: the block-0 driver
//! descriptor, the partition table, and the raw device bytes, together with
//! the binary codec that moves the model to and from a flat buffer and the
//! bump allocator that places new extents.
use vstd::prelude::*;

pub mod checksum;
pub mod image;
pub mod label;
pub mod record;
pub mod wire;

pub use checksum::apple_checksum;
pub use image::{ApmError, ApmMap, ImageView};
pub use record::{DriverData, DriverDescriptorBlock, PartitionEntry};
