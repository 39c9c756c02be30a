//! The part of a payload manifest that the patching decisions read.

use vstd::prelude::*;

verus! {

/// A run of consecutive blocks of a partition.
#[derive(Clone, Copy, Debug, PartialEq, Eq, Structural)]
pub struct Extent {
    pub start_block: u64,
    pub num_blocks: u64,
}

/// One install step of a partition: a range of the payload's blob and the
/// blocks it is written to. An operation without data (one that zeroes or
/// discards blocks) has no `data_length`.
#[derive(Debug)]
pub struct InstallOperation {
    pub data_offset: Option<u64>,
    pub data_length: Option<u64>,
    pub dst_extents: Vec<Extent>,
}

/// Size and SHA-256 digest that the manifest declares for a partition.
#[derive(Debug)]
pub struct PartitionInfo {
    pub size: Option<u64>,
    pub hash: Option<Vec<u8>>,
}

/// The manifest's entry for one partition.
#[derive(Debug)]
pub struct PartitionUpdate {
    pub partition_name: String,
    pub new_partition_info: Option<PartitionInfo>,
    pub operations: Vec<InstallOperation>,
}

/// The payload manifest.
#[derive(Debug)]
pub struct DeltaArchiveManifest {
    pub block_size: u32,
    pub partitions: Vec<PartitionUpdate>,
}

impl DeltaArchiveManifest {
    /// The names of the manifest's partitions, in manifest order.
    pub open spec fn partition_names(&self) -> Seq<Seq<char>> {
        Seq::new(self.partitions@.len(), |i: int| self.partitions@[i].partition_name@)
    }
}

} // verus!
