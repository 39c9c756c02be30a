use avbroot::error::OtaError;
use avbroot::images::RequiredImages;
use avbroot::manifest::{DeltaArchiveManifest, PartitionUpdate};
use avbroot::pool::{check_external_images, has_partition, open_input_files, ImagePool, InputFileState, Prune};

fn pool_manifest(names: &[&str]) -> DeltaArchiveManifest {
    DeltaArchiveManifest {
        block_size: 4096,
        partitions: names
            .iter()
            .map(|n| PartitionUpdate {
                partition_name: n.to_string(),
                new_partition_info: None,
                operations: vec![],
            })
            .collect(),
    }
}

fn strings(names: &[&str]) -> Vec<String> {
    names.iter().map(|s| s.to_string()).collect()
}

fn sample_pool() -> ImagePool {
    let m = pool_manifest(&["boot", "init_boot", "system", "vbmeta", "vendor"]);
    let r = RequiredImages::new(&m);
    open_input_files(&r, &strings(&["system", "vendor"]))
}

#[test]
fn pool_holds_required_and_external_images() {
    let pool = sample_pool();
    assert_eq!(pool.len(), 5);
    assert_eq!(pool.state("boot"), Some(InputFileState::Extracted));
    assert_eq!(pool.state("init_boot"), Some(InputFileState::Extracted));
    assert_eq!(pool.state("vbmeta"), Some(InputFileState::Extracted));
    assert_eq!(pool.state("system"), Some(InputFileState::External));
    assert_eq!(pool.state("vendor"), Some(InputFileState::External));
    assert_eq!(pool.state("product"), None);
    assert!(pool.contains("boot"));
    assert!(!pool.contains("product"));
}

#[test]
fn pool_holds_each_name_once() {
    let m = pool_manifest(&["boot", "system"]);
    let r = RequiredImages::new(&m);
    let pool = open_input_files(&r, &strings(&["boot", "boot", "system"]));
    assert_eq!(pool.len(), 2);
    let mut names = pool.names();
    names.sort();
    assert_eq!(names, vec!["boot", "system"]);
    assert_eq!(pool.state("boot"), Some(InputFileState::External));
}

#[test]
fn replacement_for_an_unknown_partition_is_refused() {
    let m = pool_manifest(&["boot", "system"]);
    assert!(check_external_images(&m, &strings(&["system"])).is_ok());
    assert!(check_external_images(&m, &strings(&[])).is_ok());
    match check_external_images(&m, &strings(&["system", "nope", "other"])) {
        Err(OtaError::ReplaceMissingPartition(name)) => assert_eq!(name, "nope"),
        other => panic!("{:?}", other),
    }
    let r = RequiredImages::new(&m);
    assert!(matches!(ImagePool::open(&r, &strings(&["nope"]), &m), Err(OtaError::ReplaceMissingPartition(_))));
    let pool = ImagePool::open(&r, &strings(&["system"]), &m).unwrap();
    assert_eq!(pool.state("system"), Some(InputFileState::External));
    assert!(has_partition(&m, "boot"));
    assert!(!has_partition(&m, "vendor"));
}

#[test]
fn external_images_are_extracted_before_they_are_modified() {
    let mut pool = sample_pool();
    assert!(!pool.modify("system"));
    assert_eq!(pool.state("system"), Some(InputFileState::External));
    assert!(pool.extract("system"));
    assert_eq!(pool.state("system"), Some(InputFileState::Extracted));
    assert!(!pool.extract("system"));
    assert!(pool.modify("system"));
    assert_eq!(pool.state("system"), Some(InputFileState::Modified));
    assert!(pool.modify("system"));
    assert!(!pool.extract("system"));
    assert_eq!(pool.state("system"), Some(InputFileState::Modified));
    assert!(!pool.extract("missing"));
    assert!(!pool.modify("missing"));
}

#[test]
fn replacing_an_image_marks_it_modified() {
    let mut pool = sample_pool();
    assert!(pool.replace("boot"));
    assert_eq!(pool.state("boot"), Some(InputFileState::Modified));
    assert!(pool.replace("vendor"));
    assert_eq!(pool.state("vendor"), Some(InputFileState::Modified));
    assert!(!pool.replace("missing"));
    assert_eq!(pool.len(), 5);
}

#[test]
fn pruning_drops_extracted_boot_images() {
    let mut pool = sample_pool();
    assert!(pool.replace("boot"));
    pool.prune(Prune::ExtractedBoot);
    assert_eq!(pool.state("boot"), Some(InputFileState::Modified));
    assert_eq!(pool.state("init_boot"), None);
    assert_eq!(pool.state("vbmeta"), Some(InputFileState::Extracted));
    assert_eq!(pool.state("system"), Some(InputFileState::External));
    assert_eq!(pool.len(), 4);
}

#[test]
fn pruning_drops_every_extracted_image() {
    let mut pool = sample_pool();
    assert!(pool.replace("boot"));
    pool.prune(Prune::Extracted);
    assert_eq!(pool.len(), 3);
    assert_eq!(pool.state("boot"), Some(InputFileState::Modified));
    assert_eq!(pool.state("system"), Some(InputFileState::External));
    assert_eq!(pool.state("vendor"), Some(InputFileState::External));
    assert_eq!(pool.state("vbmeta"), None);
    assert_eq!(pool.state("init_boot"), None);
}
