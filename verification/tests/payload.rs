use avbroot::error::OtaError;
use avbroot::manifest::{DeltaArchiveManifest, Extent, InstallOperation, PartitionUpdate};
use avbroot::payload::{
    after_partial, check_extents_in_order, full_operations, modified_operations, operation_source, plan_compression,
    ranges_contains, ByteRange, CompressedImage, Compression, DataSource, NextStep, OpRange, PartialOutcome,
};

fn op(offset: Option<u64>, length: Option<u64>, extents: &[(u64, u64)]) -> InstallOperation {
    InstallOperation {
        data_offset: offset,
        data_length: length,
        dst_extents: extents.iter().map(|(s, n)| Extent { start_block: *s, num_blocks: *n }).collect(),
    }
}

fn payload_manifest() -> DeltaArchiveManifest {
    DeltaArchiveManifest {
        block_size: 4096,
        partitions: vec![
            PartitionUpdate {
                partition_name: "boot".to_string(),
                new_partition_info: None,
                operations: vec![op(Some(0), Some(100), &[(0, 1)]), op(Some(100), Some(50), &[(1, 1)])],
            },
            PartitionUpdate {
                partition_name: "system".to_string(),
                new_partition_info: None,
                operations: vec![
                    op(Some(150), Some(10), &[(0, 2)]),
                    op(None, None, &[(2, 2)]),
                    op(Some(160), Some(20), &[(4, 2)]),
                    op(None, Some(5), &[(6, 1)]),
                    op(Some(u64::MAX - 10), Some(1), &[(7, 1)]),
                ],
            },
        ],
    }
}

#[test]
fn ranges_hold_their_start_and_not_their_end() {
    let ranges = vec![OpRange { start: 2, end: 4 }, OpRange { start: 7, end: 8 }, OpRange { start: 9, end: 9 }];
    assert!(!ranges_contains(&ranges, 1));
    assert!(ranges_contains(&ranges, 2));
    assert!(ranges_contains(&ranges, 3));
    assert!(!ranges_contains(&ranges, 4));
    assert!(ranges_contains(&ranges, 7));
    assert!(!ranges_contains(&ranges, 8));
    assert!(!ranges_contains(&ranges, 9));
    assert!(!ranges_contains(&Vec::new(), 0));
}

#[test]
fn full_compression_covers_every_operation() {
    assert_eq!(full_operations(5), vec![OpRange { start: 0, end: 5 }]);
    assert!(ranges_contains(&full_operations(5), 0));
    assert!(ranges_contains(&full_operations(5), 4));
    assert!(!ranges_contains(&full_operations(5), 5));
    assert!(!ranges_contains(&full_operations(0), 0));
}

#[test]
fn extents_in_order_rise_without_overlap() {
    assert!(check_extents_in_order(&Vec::new()));
    assert!(check_extents_in_order(&vec![op(None, None, &[(0, 2), (2, 3)]), op(None, None, &[(5, 1)])]));
    assert!(check_extents_in_order(&vec![op(None, None, &[(0, 2)]), op(None, None, &[]), op(None, None, &[(10, 1)])]));
    assert!(!check_extents_in_order(&vec![op(None, None, &[(0, 2), (1, 3)])]));
    assert!(!check_extents_in_order(&vec![op(None, None, &[(4, 2)]), op(None, None, &[(0, 2)])]));
    assert!(!check_extents_in_order(&vec![op(None, None, &[(4, 2)]), op(None, None, &[(5, 2)])]));
    assert!(check_extents_in_order(&vec![op(None, None, &[(u64::MAX, u64::MAX)])]));
    assert!(!check_extents_in_order(&vec![op(None, None, &[(u64::MAX, 1), (u64::MAX, 1)])]));
    assert!(check_extents_in_order(&vec![op(None, None, &[(3, 0), (3, 0), (3, 1)])]));
}

#[test]
fn operations_that_touch_changed_bytes_are_selected() {
    let ops = vec![
        op(None, None, &[(0, 1)]),
        op(None, None, &[(1, 1)]),
        op(None, None, &[(2, 2)]),
        op(None, None, &[(4, 1), (6, 1)]),
        op(None, None, &[(5, 1)]),
    ];
    let ranges = vec![ByteRange { start: 4096, end: 4097 }, ByteRange { start: 6 * 4096 + 10, end: 6 * 4096 + 20 }];
    assert_eq!(modified_operations(4096, &ops, &ranges), vec![OpRange { start: 1, end: 2 }, OpRange { start: 3, end: 4 }]);
    let edge = vec![ByteRange { start: 2 * 4096 - 1, end: 2 * 4096 }];
    assert_eq!(modified_operations(4096, &ops, &edge), vec![OpRange { start: 1, end: 2 }]);
    let next = vec![ByteRange { start: 2 * 4096, end: 2 * 4096 + 1 }];
    assert_eq!(modified_operations(4096, &ops, &next), vec![OpRange { start: 2, end: 3 }]);
    let empty = vec![ByteRange { start: 100, end: 100 }];
    assert!(modified_operations(4096, &ops, &empty).is_empty());
    assert!(modified_operations(4096, &ops, &Vec::new()).is_empty());
    let all = vec![ByteRange { start: 0, end: u64::MAX }];
    assert_eq!(modified_operations(4096, &ops, &all).len(), 5);
}

#[test]
fn only_the_system_image_from_the_payload_is_compressed_in_part() {
    let ops = vec![op(None, None, &[(0, 1)]), op(None, None, &[(1, 1)])];
    let ranges = vec![ByteRange { start: 5000, end: 5001 }];
    match plan_compression("system", Some("system"), false, 4096, &ops, &ranges) {
        Compression::Partial(list) => assert_eq!(list, vec![OpRange { start: 1, end: 2 }]),
        other => panic!("{:?}", other),
    }
    assert!(matches!(plan_compression("system", Some("system"), true, 4096, &ops, &ranges), Compression::Full));
    assert!(matches!(plan_compression("boot", Some("system"), false, 4096, &ops, &ranges), Compression::Full));
    assert!(matches!(plan_compression("system", None, false, 4096, &ops, &ranges), Compression::Full));
    let unordered = vec![op(None, None, &[(1, 1)]), op(None, None, &[(0, 1)])];
    assert!(matches!(plan_compression("system", Some("system"), false, 4096, &unordered, &ranges), Compression::Full));
}

#[test]
fn extents_out_of_order_fall_back_to_full_compression() {
    let planned = vec![OpRange { start: 1, end: 3 }];
    assert!(matches!(after_partial(PartialOutcome::ExtentsNotInOrder, planned.clone()), NextStep::CompressFull));
    assert!(matches!(after_partial(PartialOutcome::Failed, planned.clone()), NextStep::GiveUp));
    match after_partial(PartialOutcome::Done, planned) {
        NextStep::Finished(list) => assert_eq!(list, vec![OpRange { start: 1, end: 3 }]),
        other => panic!("{:?}", other),
    }
}

#[test]
fn data_comes_from_the_original_payload_by_default() {
    let m = payload_manifest();
    assert_eq!(operation_source(&m, 1000, &Vec::new(), 0, 1).unwrap(), DataSource::Original { offset: 1100, length: 50 });
    assert_eq!(operation_source(&m, 1000, &Vec::new(), 1, 2).unwrap(), DataSource::Original { offset: 1160, length: 20 });
    assert_eq!(operation_source(&m, 10, &Vec::new(), 1, 4).unwrap(), DataSource::Original { offset: u64::MAX, length: 1 });
}

#[test]
fn data_of_modified_operations_comes_from_the_compressed_image() {
    let m = payload_manifest();
    let compressed = vec![
        CompressedImage { name: "system".to_string(), modified_operations: vec![OpRange { start: 2, end: 3 }] },
        CompressedImage { name: "system".to_string(), modified_operations: vec![OpRange { start: 0, end: 5 }] },
    ];
    assert_eq!(operation_source(&m, 1000, &compressed, 1, 2).unwrap(), DataSource::Replacement { offset: 160, length: 20 });
    assert_eq!(operation_source(&m, 1000, &compressed, 1, 0).unwrap(), DataSource::Original { offset: 1150, length: 10 });
    assert_eq!(operation_source(&m, 1000, &compressed, 0, 0).unwrap(), DataSource::Original { offset: 1000, length: 100 });
}

#[test]
fn operations_without_data_are_passed_over() {
    let m = payload_manifest();
    assert_eq!(operation_source(&m, 1000, &Vec::new(), 1, 1).unwrap(), DataSource::NoData);
}

#[test]
fn operation_with_data_needs_an_offset() {
    let m = payload_manifest();
    match operation_source(&m, 1000, &Vec::new(), 1, 3) {
        Err(OtaError::MissingDataOffset { partition, operation }) => {
            assert_eq!(partition, 1);
            assert_eq!(operation, 3);
        }
        other => panic!("{:?}", other),
    }
}

#[test]
fn offset_that_overflows_is_an_error() {
    let m = payload_manifest();
    match operation_source(&m, 11, &Vec::new(), 1, 4) {
        Err(OtaError::OffsetOverflow { partition, operation }) => {
            assert_eq!(partition, 1);
            assert_eq!(operation, 4);
        }
        other => panic!("{:?}", other),
    }
    let compressed = vec![CompressedImage { name: "system".to_string(), modified_operations: vec![OpRange { start: 4, end: 5 }] }];
    assert_eq!(
        operation_source(&m, 11, &compressed, 1, 4).unwrap(),
        DataSource::Replacement { offset: u64::MAX - 10, length: 1 }
    );
}

#[test]
fn operation_outside_the_manifest_is_an_error() {
    let m = payload_manifest();
    assert!(matches!(operation_source(&m, 0, &Vec::new(), 2, 0), Err(OtaError::NoSuchOperation { partition: 2, operation: 0 })));
    assert!(matches!(operation_source(&m, 0, &Vec::new(), 0, 2), Err(OtaError::NoSuchOperation { partition: 0, operation: 2 })));
}
