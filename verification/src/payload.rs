//! Decisions of the payload rewriter: which operations of a partition are
//! compressed anew, and where the data of each operation of the new payload
//! is read from.

use vstd::prelude::*;
use vstd::string::*;
use crate::error::OtaError;
use crate::manifest::{DeltaArchiveManifest, Extent, InstallOperation};
use crate::text::{names_view, position_of, lemma_position_is, str_eq};

verus! {

/// A half-open range of operation indices.
#[derive(Clone, Copy, Debug, PartialEq, Eq, Structural)]
pub struct OpRange {
    pub start: usize,
    pub end: usize,
}

/// A half-open range of bytes of a partition image.
#[derive(Clone, Copy, Debug, PartialEq, Eq, Structural)]
pub struct ByteRange {
    pub start: u64,
    pub end: u64,
}

/// Whether one of the ranges holds `index`.
pub open spec fn in_ranges(ranges: Seq<OpRange>, index: int) -> bool {
    exists|k: int| 0 <= k < ranges.len() && (#[trigger] ranges[k]).start <= index < ranges[k].end
}

/// Whether one of the ranges holds `index`.
pub fn ranges_contains(ranges: &Vec<OpRange>, index: usize) -> (r: bool)
    ensures
        r == in_ranges(ranges@, index as int),
{
    let mut k: usize = 0;
    while k < ranges.len()
        invariant
            k <= ranges.len(),
            forall|j: int|
                0 <= j < k ==> !((#[trigger] ranges@[j]).start <= index < ranges@[j].end),
        decreases ranges.len() - k,
    {
        if ranges[k].start <= index && index < ranges[k].end {
            return true;
        }
        k += 1;
    }
    false
}

/// The one range that holds every operation of a partition that was
/// compressed as a whole.
pub fn full_operations(count: usize) -> (r: Vec<OpRange>)
    ensures
        r@ == seq![OpRange { start: 0, end: count }],
        forall|index: int| in_ranges(r@, index) <==> 0 <= index < count,
{
    let mut out: Vec<OpRange> = Vec::new();
    out.push(OpRange { start: 0, end: count });
    proof {
        assert(out@ =~= seq![OpRange { start: 0, end: count }]);
        assert forall|index: int| in_ranges(out@, index) <==> 0 <= index < count by {
            if 0 <= index < count {
                assert(out@[0].start <= index < out@[0].end);
            }
        }
    }
    out
}

/// The first byte of an extent.
pub open spec fn extent_start(block_size: u32, e: Extent) -> int {
    e.start_block * block_size
}

/// The byte after the last byte of an extent.
pub open spec fn extent_end(block_size: u32, e: Extent) -> int {
    (e.start_block + e.num_blocks) * block_size
}

/// The byte `x` lies in the extent.
pub open spec fn in_extent(block_size: u32, e: Extent, x: int) -> bool {
    extent_start(block_size, e) <= x < extent_end(block_size, e)
}

/// The byte `x` lies in the range.
pub open spec fn in_byte_range(r: ByteRange, x: int) -> bool {
    r.start <= x < r.end
}

/// The extent and the range have a byte in common.
pub open spec fn overlaps(block_size: u32, e: Extent, r: ByteRange) -> bool {
    extent_start(block_size, e) < r.end && r.start < extent_end(block_size, e) && r.start < r.end
        && extent_start(block_size, e) < extent_end(block_size, e)
}

/// One of the extents that the operation writes has a byte in common with
/// one of the ranges.
pub open spec fn touches(block_size: u32, op: InstallOperation, ranges: Seq<ByteRange>) -> bool {
    exists|a: int, k: int|
        0 <= a < op.dst_extents@.len() && 0 <= k < ranges.len() && overlaps(
            block_size,
            #[trigger] op.dst_extents@[a],
            #[trigger] ranges[k],
        )
}

/// The extents of the operations, taken in order, rise and do not overlap.
pub open spec fn extents_in_order(ops: Seq<InstallOperation>) -> bool {
    forall|i: int, a: int, j: int, b: int|
        0 <= i < ops.len() && 0 <= a < ops[i].dst_extents@.len() && 0 <= j < ops.len() && 0 <= b
            < ops[j].dst_extents@.len() && (i < j || (i == j && a < b)) ==> (
        #[trigger] ops[i].dst_extents@[a]).start_block + ops[i].dst_extents@[a].num_blocks <= (
        #[trigger] ops[j].dst_extents@[b]).start_block
}

/// Whether the extents of the operations rise and do not overlap.
pub fn check_extents_in_order(ops: &Vec<InstallOperation>) -> (r: bool)
    ensures
        r == extents_in_order(ops@),
{
    let mut reached: u128 = 0;
    let ghost mut last_op: int = 0;
    let ghost mut last_extent: int = 0;
    let ghost mut seen: bool = false;
    let mut i: usize = 0;
    while i < ops.len()
        invariant
            i <= ops.len(),
            reached <= 2 * u64::MAX,
            !seen ==> reached == 0,
            seen ==> 0 <= last_op < i && 0 <= last_extent < ops@[last_op].dst_extents@.len()
                && reached == ops@[last_op].dst_extents@[last_extent].start_block
                + ops@[last_op].dst_extents@[last_extent].num_blocks,
            forall|p: int, a: int|
                0 <= p < i && 0 <= a < ops@[p].dst_extents@.len() ==> (
                #[trigger] ops@[p].dst_extents@[a]).start_block + ops@[p].dst_extents@[a].num_blocks
                    <= reached,
            forall|p: int, a: int, q: int, b: int|
                0 <= p < i && 0 <= a < ops@[p].dst_extents@.len() && 0 <= q < i && 0 <= b
                    < ops@[q].dst_extents@.len() && (p < q || (p == q && a < b)) ==> (
                #[trigger] ops@[p].dst_extents@[a]).start_block
                    + ops@[p].dst_extents@[a].num_blocks <= (
                #[trigger] ops@[q].dst_extents@[b]).start_block,
        decreases ops.len() - i,
    {
        let extents = &ops[i].dst_extents;
        let mut a: usize = 0;
        while a < extents.len()
            invariant
                a <= extents.len(),
                i < ops.len(),
                extents@ == ops@[i as int].dst_extents@,
                reached <= 2 * u64::MAX,
                !seen ==> reached == 0,
                seen ==> 0 <= last_op <= i && 0 <= last_extent < ops@[last_op].dst_extents@.len()
                    && (last_op == i ==> last_extent < a) && reached
                    == ops@[last_op].dst_extents@[last_extent].start_block
                    + ops@[last_op].dst_extents@[last_extent].num_blocks,
                forall|p: int, c: int|
                    0 <= p < i && 0 <= c < ops@[p].dst_extents@.len() ==> (
                    #[trigger] ops@[p].dst_extents@[c]).start_block
                        + ops@[p].dst_extents@[c].num_blocks <= reached,
                forall|c: int|
                    0 <= c < a ==> (#[trigger] extents@[c]).start_block + extents@[c].num_blocks
                        <= reached,
                forall|p: int, c: int, q: int, b: int|
                    0 <= p < i && 0 <= c < ops@[p].dst_extents@.len() && 0 <= q < i && 0 <= b
                        < ops@[q].dst_extents@.len() && (p < q || (p == q && c < b)) ==> (
                    #[trigger] ops@[p].dst_extents@[c]).start_block
                        + ops@[p].dst_extents@[c].num_blocks <= (
                    #[trigger] ops@[q].dst_extents@[b]).start_block,
                forall|p: int, c: int, b: int|
                    0 <= p < i && 0 <= c < ops@[p].dst_extents@.len() && 0 <= b < a ==> (
                    #[trigger] ops@[p].dst_extents@[c]).start_block
                        + ops@[p].dst_extents@[c].num_blocks <= (#[trigger] extents@[b]).start_block,
                forall|c: int, b: int|
                    0 <= c < b < a ==> (#[trigger] extents@[c]).start_block + extents@[c].num_blocks
                        <= (#[trigger] extents@[b]).start_block,
            decreases extents.len() - a,
        {
            let e = extents[a];
            let start: u128 = e.start_block as u128;
            if start < reached {
                proof {
                    assert(seen);
                    let w = ops@[last_op].dst_extents@[last_extent];
                    assert(ops@[i as int].dst_extents@[a as int] == e);
                    assert(w.start_block + w.num_blocks > e.start_block);
                    assert(last_op < i || (last_op == i && last_extent < a));
                }
                return false;
            }
            reached = start + e.num_blocks as u128;
            proof {
                last_op = i as int;
                last_extent = a as int;
                seen = true;
            }
            a += 1;
        }
        i += 1;
    }
    true
}

fn extent_overlaps(block_size: u32, e: Extent, r: ByteRange) -> (hit: bool)
    ensures
        hit == overlaps(block_size, e, r),
{
    let size: u128 = block_size as u128;
    let first: u128 = e.start_block as u128;
    let blocks: u128 = e.start_block as u128 + e.num_blocks as u128;
    assert(first * size <= 0xffff_ffff_ffff_ffff * 0xffff_ffff) by (nonlinear_arith)
        requires
            first <= 0xffff_ffff_ffff_ffff,
            size <= 0xffff_ffff,
    ;
    assert(blocks * size <= 0x1_ffff_ffff_ffff_fffe * 0xffff_ffff) by (nonlinear_arith)
        requires
            blocks <= 0x1_ffff_ffff_ffff_fffe,
            size <= 0xffff_ffff,
    ;
    let start: u128 = first * size;
    let end: u128 = blocks * size;
    let from: u128 = r.start as u128;
    let to: u128 = r.end as u128;
    start < to && from < end && from < to && start < end
}

fn operation_touches(block_size: u32, op: &InstallOperation, ranges: &Vec<ByteRange>) -> (hit: bool)
    ensures
        hit == touches(block_size, *op, ranges@),
{
    let mut a: usize = 0;
    while a < op.dst_extents.len()
        invariant
            a <= op.dst_extents.len(),
            forall|c: int, k: int|
                0 <= c < a && 0 <= k < ranges@.len() ==> !overlaps(
                    block_size,
                    #[trigger] op.dst_extents@[c],
                    #[trigger] ranges@[k],
                ),
        decreases op.dst_extents.len() - a,
    {
        let mut k: usize = 0;
        while k < ranges.len()
            invariant
                k <= ranges.len(),
                a < op.dst_extents.len(),
                forall|c: int, m: int|
                    0 <= c < a && 0 <= m < ranges@.len() ==> !overlaps(
                        block_size,
                        #[trigger] op.dst_extents@[c],
                        #[trigger] ranges@[m],
                    ),
                forall|m: int|
                    0 <= m < k ==> !overlaps(
                        block_size,
                        op.dst_extents@[a as int],
                        #[trigger] ranges@[m],
                    ),
            decreases ranges.len() - k,
        {
            if extent_overlaps(block_size, op.dst_extents[a], ranges[k]) {
                return true;
            }
            k += 1;
        }
        a += 1;
    }
    false
}

/// The operations that have to be compressed anew after the bytes in
/// `ranges` of the image were changed: those that write an extent with a
/// byte in one of the ranges. Each of them comes as a range of its own.
pub fn modified_operations(block_size: u32, ops: &Vec<InstallOperation>, ranges: &Vec<ByteRange>) -> (r:
    Vec<OpRange>)
    ensures
        forall|index: int|
            in_ranges(r@, index) <==> 0 <= index < ops@.len() && touches(
                block_size,
                ops@[index],
                ranges@,
            ),
{
    let mut out: Vec<OpRange> = Vec::new();
    let mut i: usize = 0;
    while i < ops.len()
        invariant
            i <= ops.len(),
            forall|k: int|
                0 <= k < out@.len() ==> (#[trigger] out@[k]).end == out@[k].start + 1 && out@[k].start
                    < i && touches(block_size, ops@[out@[k].start as int], ranges@),
            forall|index: int|
                0 <= index < i && touches(block_size, ops@[index], ranges@) ==> in_ranges(
                    out@,
                    index,
                ),
        decreases ops.len() - i,
    {
        if operation_touches(block_size, &ops[i], ranges) {
            let ghost prior = out@;
            out.push(OpRange { start: i, end: i + 1 });
            proof {
                assert forall|index: int|
                    0 <= index < i + 1 && touches(
                        block_size,
                        ops@[index],
                        ranges@,
                    ) implies in_ranges(out@, index) by {
                    if index < i {
                        assert(in_ranges(prior, index));
                        let k = choose|k: int|
                            0 <= k < prior.len() && (#[trigger] prior[k]).start <= index
                                < prior[k].end;
                        assert(out@[k].start <= index < out@[k].end);
                    } else {
                        assert(out@[prior.len() as int].start <= index < out@[prior.len() as int].end);
                    }
                }
            }
        }
        i += 1;
    }
    proof {
        assert forall|index: int| in_ranges(out@, index) implies 0 <= index < ops@.len()
            && touches(block_size, ops@[index], ranges@) by {
            let k = choose|k: int|
                0 <= k < out@.len() && (#[trigger] out@[k]).start <= index < out@[k].end;
            assert(index == out@[k].start);
        }
    }
    out
}

/// How the image of a partition is compressed for the new payload.
#[derive(Debug)]
pub enum Compression {
    /// The whole image is cut into blocks again and compressed.
    Full,
    /// Only the listed operations are compressed anew. The others are
    /// taken over from the original payload.
    Partial(Vec<OpRange>),
}

/// Whether only a part of the image of `name` may be compressed anew: the
/// image is the system image, it was not replaced by an external file, and
/// the extents of its operations in the original payload rise and do not
/// overlap.
pub open spec fn partial_allowed(
    name: Seq<char>,
    system_target: Option<Seq<char>>,
    externally_replaced: bool,
    ops: Seq<InstallOperation>,
) -> bool {
    system_target == Some(name) && !externally_replaced && extents_in_order(ops)
}

/// Decides how the image of `name` is compressed. `ranges` are the bytes
/// of the system image that were changed.
pub fn plan_compression(
    name: &str,
    system_target: Option<&str>,
    externally_replaced: bool,
    block_size: u32,
    ops: &Vec<InstallOperation>,
    ranges: &Vec<ByteRange>,
) -> (r: Compression)
    ensures
        match r {
            Compression::Partial(list) => partial_allowed(
                name@,
                match system_target {
                    Some(t) => Some(t@),
                    None => None,
                },
                externally_replaced,
                ops@,
            ) && forall|index: int|
                in_ranges(list@, index) <==> 0 <= index < ops@.len() && touches(
                    block_size,
                    ops@[index],
                    ranges@,
                ),
            Compression::Full => !partial_allowed(
                name@,
                match system_target {
                    Some(t) => Some(t@),
                    None => None,
                },
                externally_replaced,
                ops@,
            ),
        },
{
    let is_system = match system_target {
        Some(t) => str_eq(t, name),
        None => false,
    };
    if is_system && !externally_replaced && check_extents_in_order(ops) {
        Compression::Partial(modified_operations(block_size, ops, ranges))
    } else {
        Compression::Full
    }
}

/// How an attempt to compress a part of an image ended.
#[derive(Clone, Copy, Debug, PartialEq, Eq, Structural)]
pub enum PartialOutcome {
    /// The planned operations were compressed anew.
    Done,
    /// The compressor found the extents out of order.
    ExtentsNotInOrder,
    /// The compressor failed for another reason.
    Failed,
}

/// What follows an attempt to compress a part of an image.
#[derive(Debug)]
pub enum NextStep {
    /// The image is compressed: these operations are read from it.
    Finished(Vec<OpRange>),
    /// The whole image has to be compressed after all.
    CompressFull,
    /// The run is given up.
    GiveUp,
}

/// Decides what follows an attempt to compress the planned operations of
/// an image. Where it went well, the planned operations are the ones that
/// are read from the compressed image. Extents that are out of order only
/// rule the shortcut out: the whole image is compressed then. Any other
/// failure ends the run.
pub fn after_partial(outcome: PartialOutcome, planned: Vec<OpRange>) -> (r: NextStep)
    ensures
        match outcome {
            PartialOutcome::Done => r matches NextStep::Finished(same) && same@ == planned@,
            PartialOutcome::ExtentsNotInOrder => r is CompressFull,
            PartialOutcome::Failed => r is GiveUp,
        },
{
    match outcome {
        PartialOutcome::Done => NextStep::Finished(planned),
        PartialOutcome::ExtentsNotInOrder => NextStep::CompressFull,
        PartialOutcome::Failed => NextStep::GiveUp,
    }
}

/// An image that was compressed for the new payload, with the operations
/// whose data is read from it.
#[derive(Debug)]
pub struct CompressedImage {
    pub name: String,
    pub modified_operations: Vec<OpRange>,
}

/// The names of a list of compressed images.
pub open spec fn compressed_names(images: Seq<CompressedImage>) -> Seq<Seq<char>> {
    Seq::new(images.len(), |i: int| images[i].name@)
}

/// Where the data of an operation of the new payload is read from.
#[derive(Clone, Copy, Debug, PartialEq, Eq, Structural)]
pub enum DataSource {
    /// The operation carries no data.
    NoData,
    /// The compressed image of the partition, at this offset.
    Replacement { offset: u64, length: u64 },
    /// The original payload, at this offset.
    Original { offset: u64, length: u64 },
}

/// What `operation_source` comes to.
pub enum SourceOutcome {
    Source(DataSource),
    NoSuchOperation,
    MissingOffset,
    Overflow,
}

/// Where the data of operation `oi` of partition `pi` is read from. An
/// operation without a data length carries no data. The data of an
/// operation that was compressed anew lies in the compressed image of its
/// partition, at the offset that the operation names. All other data lies
/// in the original payload, at that offset behind the start of the blob.
pub open spec fn source_of(
    manifest: DeltaArchiveManifest,
    blob_offset: u64,
    compressed: Seq<CompressedImage>,
    pi: int,
    oi: int,
) -> SourceOutcome {
    if !(0 <= pi < manifest.partitions@.len() && 0 <= oi
        < manifest.partitions@[pi].operations@.len()) {
        SourceOutcome::NoSuchOperation
    } else {
        let partition = manifest.partitions@[pi];
        let op = partition.operations@[oi];
        let at = position_of(compressed_names(compressed), partition.partition_name@);
        match op.data_length {
            None => SourceOutcome::Source(DataSource::NoData),
            Some(length) => match op.data_offset {
                None => SourceOutcome::MissingOffset,
                Some(offset) => if at < compressed.len() && in_ranges(
                    compressed[at].modified_operations@,
                    oi,
                ) {
                    SourceOutcome::Source(DataSource::Replacement { offset: offset, length: length })
                } else if offset + blob_offset > u64::MAX {
                    SourceOutcome::Overflow
                } else {
                    SourceOutcome::Source(
                        DataSource::Original {
                            offset: (offset + blob_offset) as u64,
                            length: length,
                        },
                    )
                },
            },
        }
    }
}

fn find_compressed(compressed: &Vec<CompressedImage>, name: &str) -> (r: Option<usize>)
    ensures
        match r {
            Some(i) => i < compressed@.len() && i == position_of(
                compressed_names(compressed@),
                name@,
            ),
            None => position_of(compressed_names(compressed@), name@) == compressed@.len(),
        },
{
    let mut i: usize = 0;
    while i < compressed.len()
        invariant
            i <= compressed.len(),
            forall|j: int| 0 <= j < i ==> compressed_names(compressed@)[j] != name@,
        decreases compressed.len() - i,
    {
        if str_eq(compressed[i].name.as_str(), name) {
            proof {
                lemma_position_is(compressed_names(compressed@), name@, i as int);
            }
            return Some(i);
        }
        i += 1;
    }
    proof {
        lemma_position_is(compressed_names(compressed@), name@, i as int);
    }
    None
}

/// Decides where the data of one operation of the new payload is read
/// from.
pub fn operation_source(
    manifest: &DeltaArchiveManifest,
    blob_offset: u64,
    compressed: &Vec<CompressedImage>,
    partition_index: usize,
    operation_index: usize,
) -> (r: Result<DataSource, OtaError>)
    ensures
        match source_of(
            *manifest,
            blob_offset,
            compressed@,
            partition_index as int,
            operation_index as int,
        ) {
            SourceOutcome::Source(s) => r == Ok::<DataSource, OtaError>(s),
            SourceOutcome::NoSuchOperation => r matches Err(
                OtaError::NoSuchOperation { partition, operation },
            ) && partition == partition_index && operation == operation_index,
            SourceOutcome::MissingOffset => r matches Err(
                OtaError::MissingDataOffset { partition, operation },
            ) && partition == partition_index && operation == operation_index,
            SourceOutcome::Overflow => r matches Err(
                OtaError::OffsetOverflow { partition, operation },
            ) && partition == partition_index && operation == operation_index,
        },
{
    if partition_index >= manifest.partitions.len() {
        return Err(
            OtaError::NoSuchOperation { partition: partition_index, operation: operation_index },
        );
    }
    let partition = &manifest.partitions[partition_index];
    if operation_index >= partition.operations.len() {
        return Err(
            OtaError::NoSuchOperation { partition: partition_index, operation: operation_index },
        );
    }
    let op = &partition.operations[operation_index];
    let length = match op.data_length {
        Some(length) => length,
        None => {
            return Ok(DataSource::NoData);
        },
    };
    let offset = match op.data_offset {
        Some(offset) => offset,
        None => {
            return Err(
                OtaError::MissingDataOffset {
                    partition: partition_index,
                    operation: operation_index,
                },
            );
        },
    };
    match find_compressed(compressed, partition.partition_name.as_str()) {
        Some(at) => {
            if ranges_contains(&compressed[at].modified_operations, operation_index) {
                return Ok(DataSource::Replacement { offset, length });
            }
        },
        None => {},
    }
    match offset.checked_add(blob_offset) {
        Some(sum) => Ok(DataSource::Original { offset: sum, length }),
        None => Err(
            OtaError::OffsetOverflow { partition: partition_index, operation: operation_index },
        ),
    }
}

/// The data of a partition whose image was not compressed anew is read from
/// the original payload, at the place that the manifest names: such a
/// partition keeps the bytes of each of its operations.
pub proof fn lemma_untouched_partition_keeps_its_data(
    manifest: DeltaArchiveManifest,
    blob_offset: u64,
    compressed: Seq<CompressedImage>,
    pi: int,
    oi: int,
)
    requires
        0 <= pi < manifest.partitions@.len(),
        0 <= oi < manifest.partitions@[pi].operations@.len(),
        !compressed_names(compressed).contains(manifest.partitions@[pi].partition_name@),
        manifest.partitions@[pi].operations@[oi].data_length is Some,
        manifest.partitions@[pi].operations@[oi].data_offset is Some,
        manifest.partitions@[pi].operations@[oi].data_offset->Some_0 + blob_offset <= u64::MAX,
    ensures
        source_of(manifest, blob_offset, compressed, pi, oi) == SourceOutcome::Source(
            DataSource::Original {
                offset: (manifest.partitions@[pi].operations@[oi].data_offset->Some_0
                    + blob_offset) as u64,
                length: manifest.partitions@[pi].operations@[oi].data_length->Some_0,
            },
        ),
{
    crate::text::lemma_position_of(
        compressed_names(compressed),
        manifest.partitions@[pi].partition_name@,
    );
}

/// A byte that an operation writes, and that was changed, belongs to an
/// operation that is compressed anew: an operation that is taken over from
/// the original payload writes no byte that was changed.
pub proof fn lemma_kept_operations_write_no_changed_byte(
    block_size: u32,
    op: InstallOperation,
    ranges: Seq<ByteRange>,
    a: int,
    k: int,
    x: int,
)
    requires
        !touches(block_size, op, ranges),
        0 <= a < op.dst_extents@.len(),
        0 <= k < ranges.len(),
        in_extent(block_size, op.dst_extents@[a], x),
    ensures
        !in_byte_range(ranges[k], x),
{
    if in_byte_range(ranges[k], x) {
        assert(overlaps(block_size, op.dst_extents@[a], ranges[k]));
    }
}

/// Two images that differ only inside `ranges` hold the same bytes in
/// every extent of an operation that is taken over from the original
/// payload. The data of such an operation is therefore still right.
pub proof fn lemma_kept_operations_keep_their_data(
    block_size: u32,
    op: InstallOperation,
    ranges: Seq<ByteRange>,
    before: Seq<u8>,
    after: Seq<u8>,
    a: int,
)
    requires
        !touches(block_size, op, ranges),
        0 <= a < op.dst_extents@.len(),
        before.len() == after.len(),
        extent_end(block_size, op.dst_extents@[a]) <= before.len(),
        forall|x: int|
            0 <= x < before.len() && (forall|k: int|
                0 <= k < ranges.len() ==> !in_byte_range(#[trigger] ranges[k], x)) ==> before[x]
                == after[x],
    ensures
        before.subrange(
            extent_start(block_size, op.dst_extents@[a]),
            extent_end(block_size, op.dst_extents@[a]),
        ) == after.subrange(
            extent_start(block_size, op.dst_extents@[a]),
            extent_end(block_size, op.dst_extents@[a]),
        ),
{
    let e = op.dst_extents@[a];
    let lo = extent_start(block_size, e);
    let hi = extent_end(block_size, e);
    assert(0 <= lo <= hi) by (nonlinear_arith)
        requires
            lo == e.start_block * block_size,
            hi == (e.start_block + e.num_blocks) * block_size,
            e.start_block >= 0,
            e.num_blocks >= 0,
            block_size >= 0,
    ;
    assert forall|y: int| 0 <= y < hi - lo implies before.subrange(lo, hi)[y] == after.subrange(
        lo,
        hi,
    )[y] by {
        let x = lo + y;
        assert forall|k: int| 0 <= k < ranges.len() implies !in_byte_range(
            #[trigger] ranges[k],
            x,
        ) by {
            lemma_kept_operations_write_no_changed_byte(block_size, op, ranges, a, k, x);
        }
    }
    assert(before.subrange(lo, hi) =~= after.subrange(lo, hi));
}

} // verus!
