use avbroot::images::RequiredImages;
use avbroot::manifest::{DeltaArchiveManifest, PartitionUpdate};

fn manifest_of(names: &[&str]) -> DeltaArchiveManifest {
    DeltaArchiveManifest {
        block_size: 4096,
        partitions: names
            .iter()
            .map(|n| PartitionUpdate {
                partition_name: n.to_string(),
                new_partition_info: None,
                operations: vec![],
            })
            .collect(),
    }
}

#[test]
fn boot_names_are_recognised() {
    assert!(RequiredImages::is_boot("boot"));
    assert!(RequiredImages::is_boot("init_boot"));
    assert!(RequiredImages::is_boot("recovery"));
    assert!(RequiredImages::is_boot("vendor_boot"));
    assert!(!RequiredImages::is_boot("system"));
    assert!(!RequiredImages::is_boot("boot_a"));
    assert!(!RequiredImages::is_boot("boo"));
    assert!(!RequiredImages::is_boot(""));
}

#[test]
fn system_name_is_exact() {
    assert!(RequiredImages::is_system("system"));
    assert!(!RequiredImages::is_system("system_ext"));
    assert!(!RequiredImages::is_system("System"));
}

#[test]
fn vbmeta_names_share_a_prefix() {
    assert!(RequiredImages::is_vbmeta("vbmeta"));
    assert!(RequiredImages::is_vbmeta("vbmeta_system"));
    assert!(RequiredImages::is_vbmeta("vbmeta_boot"));
    assert!(!RequiredImages::is_vbmeta("vbmet"));
    assert!(!RequiredImages::is_vbmeta("my_vbmeta"));
    assert!(!RequiredImages::is_vbmeta(""));
}

#[test]
fn required_images_keep_manifest_order() {
    let m = manifest_of(&["vendor", "vbmeta", "boot", "system", "product", "vbmeta_system", "recovery"]);
    let r = RequiredImages::new(&m);
    assert_eq!(r.iter(), vec!["vbmeta", "boot", "system", "vbmeta_system", "recovery"]);
}

#[test]
fn required_images_hold_each_name_once() {
    let m = manifest_of(&["boot", "vbmeta", "boot", "vbmeta", "system"]);
    let r = RequiredImages::new(&m);
    assert_eq!(r.iter(), vec!["boot", "vbmeta", "system"]);
}

#[test]
fn required_images_split_by_kind() {
    let m = manifest_of(&["init_boot", "vbmeta", "odm", "system", "vbmeta_vendor", "vendor_boot"]);
    let r = RequiredImages::new(&m);
    assert_eq!(r.iter_boot(), vec!["init_boot", "vendor_boot"]);
    assert_eq!(r.iter_system(), vec!["system"]);
    assert_eq!(r.iter_vbmeta(), vec!["vbmeta", "vbmeta_vendor"]);
}

#[test]
fn required_images_of_an_empty_manifest() {
    let m = manifest_of(&[]);
    let r = RequiredImages::new(&m);
    assert!(r.iter().is_empty());
    assert!(r.iter_boot().is_empty());
    assert!(r.iter_system().is_empty());
    assert!(r.iter_vbmeta().is_empty());
}
