use avbroot::error::OtaError;
use avbroot::images::RequiredImages;
use avbroot::manifest::{DeltaArchiveManifest, PartitionUpdate};
use avbroot::payload::ByteRange;
use avbroot::phases::{
    begin_patch, boot_patchers, check_cancel, finish_avb_phase, patch_boot_images, patch_system_image, require_full_ota, system_needs_copy,
    system_target, BootPatcher,
};
use avbroot::pool::InputFileState;

fn phase_manifest(names: &[&str]) -> DeltaArchiveManifest {
    DeltaArchiveManifest {
        block_size: 4096,
        partitions: names
            .iter()
            .map(|n| PartitionUpdate { partition_name: n.to_string(), new_partition_info: None, operations: vec![] })
            .collect(),
    }
}

fn list(names: &[&str]) -> Vec<String> {
    names.iter().map(|s| s.to_string()).collect()
}

#[test]
fn patch_begins_with_the_pool() {
    let m = phase_manifest(&["boot", "system", "vbmeta", "vendor"]);
    let (required, pool) = begin_patch(&m, &list(&["vendor"]), true).unwrap();
    assert_eq!(required.iter(), vec!["boot", "system", "vbmeta"]);
    assert_eq!(pool.len(), 4);
    assert_eq!(pool.state("vendor"), Some(InputFileState::External));
    assert_eq!(pool.state("boot"), Some(InputFileState::Extracted));
}

#[test]
fn delta_payload_is_refused() {
    let m = phase_manifest(&["boot"]);
    assert!(matches!(begin_patch(&m, &Vec::new(), false), Err(OtaError::DeltaPayload)));
    assert!(matches!(begin_patch(&m, &list(&["nope"]), false), Err(OtaError::DeltaPayload)));
    assert!(matches!(begin_patch(&m, &list(&["nope"]), true), Err(OtaError::ReplaceMissingPartition(_))));
}

#[test]
fn certificate_patcher_comes_first() {
    assert_eq!(boot_patchers(false), vec![BootPatcher::OtaCertificate]);
    assert_eq!(boot_patchers(true), vec![BootPatcher::OtaCertificate, BootPatcher::Root]);
}

#[test]
fn boot_phase_keeps_only_patched_boot_images() {
    let m = phase_manifest(&["boot", "init_boot", "vendor_boot", "system", "vbmeta"]);
    let (_, mut pool) = begin_patch(&m, &list(&["vendor_boot"]), true).unwrap();
    patch_boot_images(&mut pool, &list(&["init_boot", "not in the pool"]));
    assert_eq!(pool.state("init_boot"), Some(InputFileState::Modified));
    assert_eq!(pool.state("boot"), None);
    assert_eq!(pool.state("vendor_boot"), Some(InputFileState::External));
    assert_eq!(pool.state("system"), Some(InputFileState::Extracted));
    assert_eq!(pool.state("vbmeta"), Some(InputFileState::Extracted));
    assert_eq!(pool.len(), 4);
}

#[test]
fn system_partition_is_found() {
    let with = RequiredImages::new(&phase_manifest(&["boot", "system"]));
    assert_eq!(system_target(&with).unwrap(), "system");
    let without = RequiredImages::new(&phase_manifest(&["boot", "vbmeta"]));
    assert!(matches!(system_target(&without), Err(OtaError::NoSystemPartition)));
}

#[test]
fn external_system_image_is_copied_first() {
    let m = phase_manifest(&["boot", "system"]);
    let (_, external) = begin_patch(&m, &list(&["system"]), true).unwrap();
    assert!(system_needs_copy(&external, "system"));
    assert!(!system_needs_copy(&external, "boot"));
    assert!(!system_needs_copy(&external, "missing"));
    let (_, extracted) = begin_patch(&m, &Vec::new(), true).unwrap();
    assert!(!system_needs_copy(&extracted, "system"));
}

#[test]
fn system_phase_marks_the_image_and_joins_the_ranges() {
    let m = phase_manifest(&["boot", "system"]);
    let (required, mut pool) = begin_patch(&m, &list(&["system"]), true).unwrap();
    let first = vec![ByteRange { start: 10, end: 20 }];
    let second = vec![ByteRange { start: 0, end: 5 }, ByteRange { start: 30, end: 40 }];
    let (target, ranges) = patch_system_image(&required, &mut pool, first, second).unwrap();
    assert_eq!(target, "system");
    assert_eq!(
        ranges,
        vec![ByteRange { start: 10, end: 20 }, ByteRange { start: 0, end: 5 }, ByteRange { start: 30, end: 40 }]
    );
    assert_eq!(pool.state("system"), Some(InputFileState::Modified));
    assert_eq!(pool.state("boot"), Some(InputFileState::Extracted));
    let none = RequiredImages::new(&phase_manifest(&["boot"]));
    assert!(matches!(patch_system_image(&none, &mut pool, vec![], vec![]), Err(OtaError::NoSystemPartition)));
}

#[test]
fn avb_phase_drops_what_was_only_extracted() {
    let m = phase_manifest(&["boot", "system", "vbmeta", "vbmeta_system", "vendor"]);
    let (_, mut pool) = begin_patch(&m, &list(&["vendor"]), true).unwrap();
    assert!(pool.replace("vbmeta"));
    finish_avb_phase(&mut pool);
    assert_eq!(pool.len(), 2);
    assert_eq!(pool.state("vbmeta"), Some(InputFileState::Modified));
    assert_eq!(pool.state("vendor"), Some(InputFileState::External));
}

#[test]
fn only_full_payloads_are_taken() {
    assert!(require_full_ota(true).is_ok());
    assert!(matches!(require_full_ota(false), Err(OtaError::DeltaPayload)));
}

#[test]
fn cancel_flag_ends_an_operation() {
    assert!(check_cancel(false).is_ok());
    assert!(matches!(check_cancel(true), Err(OtaError::Cancelled)));
}
