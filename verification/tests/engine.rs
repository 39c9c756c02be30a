use avbroot::avb::{
    AlgorithmType, ChainPartitionDescriptor, Descriptor, Footer, HashDescriptor, HashTreeDescriptor, Header,
    PropertyDescriptor,
};
use avbroot::engine::{
    algorithm_for_key, ensure_partitions_protected, images_to_load, load_vbmeta_images, update_from_child,
    update_vbmeta_headers,
    AvbKey, LoadedImage,
};
use avbroot::error::OtaError;
use avbroot::graph::{get_vbmeta_patch_order, NamedHeader, PatchNode};
use avbroot::images::RequiredImages;
use avbroot::manifest::{DeltaArchiveManifest, PartitionUpdate};
use avbroot::pool::{open_input_files, ImagePool, InputFileState};

fn engine_header(public_key: &[u8], flags: u32, descriptors: Vec<Descriptor>) -> Header {
    Header {
        required_libavb_version_major: 1,
        required_libavb_version_minor: 0,
        algorithm_type: if public_key.is_empty() { AlgorithmType::Unsigned } else { AlgorithmType::Sha256Rsa2048 },
        hash: b"hash".to_vec(),
        signature: b"signature".to_vec(),
        public_key: public_key.to_vec(),
        public_key_metadata: vec![],
        descriptors,
        rollback_index: 5,
        flags,
        rollback_index_location: 0,
        release_string: "release".to_string(),
    }
}

fn engine_hash(name: &str, digest: &[u8]) -> Descriptor {
    Descriptor::Hash(HashDescriptor {
        image_size: 100,
        hash_algorithm: "sha256".to_string(),
        partition_name: name.to_string(),
        salt: vec![9],
        root_digest: digest.to_vec(),
        flags: 0,
    })
}

fn engine_tree(name: &str, digest: &[u8]) -> Descriptor {
    Descriptor::HashTree(HashTreeDescriptor {
        dm_verity_version: 1,
        image_size: 8192,
        tree_offset: 8192,
        tree_size: 4096,
        data_block_size: 4096,
        hash_block_size: 4096,
        fec_num_roots: 2,
        fec_offset: 12288,
        fec_size: 4096,
        hash_algorithm: "sha256".to_string(),
        partition_name: name.to_string(),
        salt: vec![],
        root_digest: digest.to_vec(),
        flags: 0,
    })
}

fn engine_chain(name: &str, key: &[u8]) -> Descriptor {
    Descriptor::ChainPartition(ChainPartitionDescriptor {
        rollback_index_location: 1,
        partition_name: name.to_string(),
        public_key: key.to_vec(),
        flags: 0,
    })
}

fn engine_named(name: &str, header: Header) -> NamedHeader {
    NamedHeader { name: name.to_string(), header }
}

fn engine_pool(partitions: &[&str], external: &[&str], modified: &[&str]) -> ImagePool {
    let m = DeltaArchiveManifest {
        block_size: 4096,
        partitions: partitions
            .iter()
            .map(|n| PartitionUpdate { partition_name: n.to_string(), new_partition_info: None, operations: vec![] })
            .collect(),
    };
    let r = RequiredImages::new(&m);
    let external: Vec<String> = external.iter().map(|s| s.to_string()).collect();
    let mut pool = open_input_files(&r, &external);
    for name in modified {
        assert!(pool.replace(name));
    }
    pool
}

fn required_of(partitions: &[&str]) -> RequiredImages {
    let m = DeltaArchiveManifest {
        block_size: 4096,
        partitions: partitions
            .iter()
            .map(|n| PartitionUpdate { partition_name: n.to_string(), new_partition_info: None, operations: vec![] })
            .collect(),
    };
    RequiredImages::new(&m)
}

fn avb_key() -> AvbKey {
    AvbKey { public_key: b"user key".to_vec(), size_bits: 4096 }
}

fn node(name: &str, deps: &[&str]) -> PatchNode {
    PatchNode { name: name.to_string(), deps: deps.iter().map(|s| s.to_string()).collect() }
}

#[test]
fn vbmeta_headers_are_taken_in_order() {
    let images = vec![
        LoadedImage { name: "vbmeta".to_string(), header: engine_header(b"a", 0, vec![]), footer: None },
        LoadedImage { name: "vbmeta_system".to_string(), header: engine_header(b"b", 0, vec![]), footer: None },
        LoadedImage { name: "vbmeta".to_string(), header: engine_header(b"c", 0, vec![]), footer: None },
    ];
    let headers = load_vbmeta_images(&images).unwrap();
    assert_eq!(headers.len(), 2);
    assert_eq!(headers[0].name, "vbmeta");
    assert_eq!(headers[0].header.public_key, b"a".to_vec());
    assert_eq!(headers[1].name, "vbmeta_system");
    assert_eq!(headers[1].header.public_key, b"b".to_vec());
}

#[test]
fn vbmeta_image_with_a_footer_is_refused() {
    let footer = Footer { version_major: 1, version_minor: 0, original_image_size: 4096, vbmeta_offset: 4096, vbmeta_size: 512 };
    let images = vec![
        LoadedImage { name: "vbmeta".to_string(), header: engine_header(b"a", 0, vec![]), footer: None },
        LoadedImage { name: "vbmeta_vendor".to_string(), header: engine_header(b"b", 0, vec![]), footer: Some(footer) },
        LoadedImage { name: "vbmeta_system".to_string(), header: engine_header(b"c", 0, vec![]), footer: Some(footer) },
    ];
    match load_vbmeta_images(&images) {
        Err(OtaError::VbmetaHasFooter(name)) => assert_eq!(name, "vbmeta_vendor"),
        other => panic!("{:?}", other),
    }
}

#[test]
fn covered_partitions_pass_the_protection_check() {
    let required = required_of(&["boot", "init_boot", "system", "vbmeta", "vbmeta_system"]);
    let headers = vec![
        engine_named("vbmeta", engine_header(b"k", 0, vec![engine_hash("boot", b"1"), engine_hash("init_boot", b"2")])),
        engine_named("vbmeta_system", engine_header(b"k", 0, vec![])),
    ];
    assert!(ensure_partitions_protected(&required, &headers).is_ok());
}

#[test]
fn unprotected_recovery_is_reported() {
    let required = required_of(&["boot", "recovery", "system", "vbmeta", "vendor_boot"]);
    let headers = vec![engine_named("vbmeta", engine_header(b"k", 0, vec![engine_hash("boot", b"1")]))];
    match ensure_partitions_protected(&required, &headers) {
        Err(OtaError::Unprotected(missing)) => assert_eq!(missing, vec!["recovery", "vendor_boot"]),
        other => panic!("{:?}", other),
    }
}

#[test]
fn unprotected_system_is_no_error() {
    let required = required_of(&["boot", "system", "vbmeta"]);
    let headers = vec![engine_named("vbmeta", engine_header(b"k", 0, vec![engine_hash("boot", b"1")]))];
    assert!(ensure_partitions_protected(&required, &headers).is_ok());
}

#[test]
fn missing_vbmeta_image_is_reported() {
    let required = required_of(&["vbmeta", "vbmeta_system"]);
    let headers = vec![engine_named("vbmeta", engine_header(b"k", 0, vec![]))];
    match ensure_partitions_protected(&required, &headers) {
        Err(OtaError::Unprotected(missing)) => assert_eq!(missing, vec!["vbmeta_system"]),
        other => panic!("{:?}", other),
    }
}

#[test]
fn algorithm_follows_the_size_of_the_key() {
    assert_eq!(algorithm_for_key(2048), Some(AlgorithmType::Sha256Rsa2048));
    assert_eq!(algorithm_for_key(4096), Some(AlgorithmType::Sha256Rsa4096));
    assert_eq!(algorithm_for_key(8192), Some(AlgorithmType::Sha256Rsa8192));
    assert_eq!(algorithm_for_key(1024), None);
    assert_eq!(algorithm_for_key(0), None);
    assert_eq!(algorithm_for_key(4097), None);
}

#[test]
fn rootless_patch_updates_the_hash_of_boot() {
    let mut pool = engine_pool(&["boot", "system", "vbmeta"], &[], &["boot"]);
    let mut headers = vec![engine_named(
        "vbmeta",
        engine_header(b"oem key", 0, vec![engine_hash("boot", b"old"), engine_tree("system", b"sys")]),
    )];
    let children = vec![engine_named("boot", engine_header(b"", 0, vec![engine_hash("boot", b"new")]))];
    let order = get_vbmeta_patch_order(&pool, &headers).unwrap();
    let changed = update_vbmeta_headers(&mut pool, &mut headers, &children, &order, false, &avb_key()).unwrap();
    assert_eq!(changed, vec!["vbmeta"]);
    let vbmeta = &headers[0].header;
    assert!(vbmeta.descriptors[0].same(&engine_hash("boot", b"new")));
    assert!(vbmeta.descriptors[1].same(&engine_tree("system", b"sys")));
    assert_eq!(vbmeta.public_key, b"user key".to_vec());
    assert_eq!(vbmeta.algorithm_type, AlgorithmType::Sha256Rsa4096);
    assert_eq!(vbmeta.rollback_index, 5);
    assert_eq!(pool.state("vbmeta"), Some(InputFileState::Modified));
    assert_eq!(pool.state("system"), Some(InputFileState::Extracted));
}

#[test]
fn chained_vbmeta_takes_the_new_key_of_its_child() {
    let mut pool = engine_pool(&["boot", "vbmeta", "vbmeta_boot"], &[], &["boot"]);
    let mut headers = vec![
        engine_named("vbmeta", engine_header(b"oem key", 0, vec![engine_chain("vbmeta_boot", b"oem key")])),
        engine_named("vbmeta_boot", engine_header(b"oem key", 0, vec![engine_hash("boot", b"old")])),
    ];
    let children = vec![engine_named("boot", engine_header(b"", 0, vec![engine_hash("boot", b"new")]))];
    let order = get_vbmeta_patch_order(&pool, &headers).unwrap();
    assert_eq!(order[0].name, "vbmeta_boot");
    let changed = update_vbmeta_headers(&mut pool, &mut headers, &children, &order, false, &avb_key()).unwrap();
    assert_eq!(changed, vec!["vbmeta_boot", "vbmeta"]);
    assert!(headers[1].header.descriptors[0].same(&engine_hash("boot", b"new")));
    assert_eq!(headers[1].header.public_key, b"user key".to_vec());
    assert!(headers[0].header.descriptors[0].same(&engine_chain("vbmeta_boot", b"user key")));
    assert_eq!(headers[0].header.public_key, b"user key".to_vec());
    assert_eq!(pool.state("vbmeta"), Some(InputFileState::Modified));
    assert_eq!(pool.state("vbmeta_boot"), Some(InputFileState::Modified));
}

#[test]
fn external_system_image_updates_the_hash_tree() {
    let mut pool = engine_pool(&["boot", "system", "vbmeta"], &["system"], &[]);
    assert!(pool.extract("system"));
    assert!(pool.modify("system"));
    let mut headers = vec![engine_named(
        "vbmeta",
        engine_header(b"oem key", 0, vec![engine_hash("boot", b"b"), engine_tree("system", b"old")]),
    )];
    let mut system = engine_header(b"", 0, vec![engine_tree("system", b"new")]);
    system.descriptors.push(Descriptor::Property(PropertyDescriptor { key: "com.android.build.system.os_version".to_string(), value: b"14".to_vec() }));
    let children = vec![engine_named("system", system)];
    let order = get_vbmeta_patch_order(&pool, &headers).unwrap();
    assert_eq!(order[0].deps, vec!["system"]);
    let changed = update_vbmeta_headers(&mut pool, &mut headers, &children, &order, false, &avb_key()).unwrap();
    assert_eq!(changed, vec!["vbmeta"]);
    let vbmeta = &headers[0].header;
    assert_eq!(vbmeta.descriptors.len(), 3);
    assert!(vbmeta.descriptors[0].same(&engine_hash("boot", b"b")));
    assert!(vbmeta.descriptors[1].same(&engine_tree("system", b"new")));
    assert!(matches!(&vbmeta.descriptors[2], Descriptor::Property(p) if p.key == "com.android.build.system.os_version" && p.value == b"14".to_vec()));
}

#[test]
fn flags_that_are_set_are_an_error() {
    let mut pool = engine_pool(&["vbmeta"], &[], &[]);
    let mut headers = vec![engine_named("vbmeta", engine_header(b"oem key", 1, vec![]))];
    let order = vec![node("vbmeta", &[])];
    match update_vbmeta_headers(&mut pool, &mut headers, &Vec::new(), &order, false, &avb_key()) {
        Err(OtaError::FlagsSet { name, flags }) => {
            assert_eq!(name, "vbmeta");
            assert_eq!(flags, 1);
        }
        other => panic!("{:?}", other),
    }
}

#[test]
fn flags_are_cleared_where_that_is_allowed() {
    let mut pool = engine_pool(&["vbmeta"], &[], &[]);
    let mut headers = vec![engine_named("vbmeta", engine_header(b"oem key", 3, vec![engine_hash("boot", b"b")]))];
    let order = vec![node("vbmeta", &[])];
    let changed = update_vbmeta_headers(&mut pool, &mut headers, &Vec::new(), &order, true, &avb_key()).unwrap();
    assert_eq!(changed, vec!["vbmeta"]);
    assert_eq!(headers[0].header.flags, 0);
    assert_eq!(headers[0].header.public_key, b"user key".to_vec());
    assert!(headers[0].header.descriptors[0].same(&engine_hash("boot", b"b")));
    assert_eq!(pool.state("vbmeta"), Some(InputFileState::Modified));
}

#[test]
fn unchanged_header_is_left_alone() {
    let mut pool = engine_pool(&["boot", "vbmeta"], &[], &["boot"]);
    let original = engine_header(b"oem key", 0, vec![engine_hash("boot", b"same")]);
    let mut headers = vec![engine_named("vbmeta", original.duplicate())];
    let children = vec![engine_named("boot", engine_header(b"", 0, vec![engine_hash("boot", b"same")]))];
    let order = vec![node("vbmeta", &["boot"])];
    let changed = update_vbmeta_headers(&mut pool, &mut headers, &children, &order, false, &avb_key()).unwrap();
    assert!(changed.is_empty());
    assert!(headers[0].header.same(&original));
    assert_eq!(pool.state("vbmeta"), Some(InputFileState::Extracted));
}

#[test]
fn changed_header_needs_a_key_of_a_known_size() {
    let mut pool = engine_pool(&["vbmeta"], &[], &[]);
    let mut headers = vec![engine_named("vbmeta", engine_header(b"oem key", 1, vec![]))];
    let order = vec![node("vbmeta", &[])];
    let key = AvbKey { public_key: b"k".to_vec(), size_bits: 3072 };
    assert!(matches!(
        update_vbmeta_headers(&mut pool, &mut headers, &Vec::new(), &order, true, &key),
        Err(OtaError::UnsupportedKeySize(3072))
    ));
    let mut clean = vec![engine_named("vbmeta", engine_header(b"oem key", 0, vec![]))];
    assert!(update_vbmeta_headers(&mut pool, &mut clean, &Vec::new(), &order, true, &key).unwrap().is_empty());
}

#[test]
fn dependency_without_a_header_is_an_error() {
    let mut pool = engine_pool(&["boot", "vbmeta"], &[], &["boot"]);
    let mut headers = vec![engine_named("vbmeta", engine_header(b"oem key", 0, vec![engine_hash("boot", b"b")]))];
    let order = vec![node("vbmeta", &["boot"])];
    match update_vbmeta_headers(&mut pool, &mut headers, &Vec::new(), &order, false, &avb_key()) {
        Err(OtaError::MissingHeader(name)) => assert_eq!(name, "boot"),
        other => panic!("{:?}", other),
    }
    let unknown = vec![node("vbmeta_x", &[])];
    assert!(matches!(
        update_vbmeta_headers(&mut pool, &mut headers, &Vec::new(), &unknown, false, &avb_key()),
        Err(OtaError::MissingHeader(_))
    ));
}

#[test]
fn dependency_without_a_descriptor_is_an_error() {
    let mut parent = engine_header(b"oem key", 0, vec![engine_hash("boot", b"b")]);
    let child = engine_header(b"", 0, vec![engine_hash("dtbo", b"d")]);
    match update_from_child(&mut parent, &child, "vbmeta", "dtbo") {
        Err(OtaError::MissingDescriptor { child, parent }) => {
            assert_eq!(child, "dtbo");
            assert_eq!(parent, "vbmeta");
        }
        other => panic!("{:?}", other),
    }
    assert!(parent.descriptors[0].same(&engine_hash("boot", b"b")));
}

#[test]
fn errors_of_a_child_end_the_update() {
    let mut pool = engine_pool(&["boot", "vbmeta"], &[], &["boot"]);
    let mut headers = vec![engine_named("vbmeta", engine_header(b"oem key", 0, vec![engine_chain("boot", b"k")]))];
    let children = vec![engine_named("boot", engine_header(b"", 0, vec![engine_hash("boot", b"new")]))];
    let order = vec![node("vbmeta", &["boot"])];
    assert!(matches!(
        update_vbmeta_headers(&mut pool, &mut headers, &children, &order, false, &avb_key()),
        Err(OtaError::DescriptorMismatch { .. })
    ));
}

#[test]
fn headers_of_other_images_are_read_once() {
    let headers = vec![
        engine_named("vbmeta", engine_header(b"k", 0, vec![])),
        engine_named("vbmeta_boot", engine_header(b"k", 0, vec![])),
    ];
    let order = vec![
        node("vbmeta_boot", &["boot", "init_boot"]),
        node("vbmeta", &["vbmeta_boot", "boot", "system"]),
    ];
    assert_eq!(images_to_load(&headers, &order), vec!["boot", "init_boot", "system"]);
    assert!(images_to_load(&headers, &Vec::new()).is_empty());
}

#[test]
fn failing_step_leaves_its_image_and_the_later_ones() {
    let mut pool = engine_pool(&["boot", "vbmeta", "vbmeta_boot", "vbmeta_system"], &[], &["boot"]);
    let flagged = engine_header(b"oem key", 1, vec![engine_chain("vbmeta_boot", b"oem key")]);
    let later = engine_header(b"oem key", 2, vec![]);
    let mut headers = vec![
        engine_named("vbmeta", flagged.duplicate()),
        engine_named("vbmeta_boot", engine_header(b"oem key", 0, vec![engine_hash("boot", b"old")])),
        engine_named("vbmeta_system", later.duplicate()),
    ];
    let children = vec![engine_named("boot", engine_header(b"", 0, vec![engine_hash("boot", b"new")]))];
    let order = vec![node("vbmeta_boot", &["boot"]), node("vbmeta", &["vbmeta_boot"]), node("vbmeta_system", &[])];
    match update_vbmeta_headers(&mut pool, &mut headers, &children, &order, false, &avb_key()) {
        Err(OtaError::FlagsSet { name, flags }) => {
            assert_eq!(name, "vbmeta");
            assert_eq!(flags, 1);
        }
        other => panic!("{:?}", other),
    }
    assert!(headers[0].header.same(&flagged));
    assert!(headers[2].header.same(&later));
    assert_eq!(pool.state("vbmeta"), Some(InputFileState::Extracted));
    assert_eq!(pool.state("vbmeta_system"), Some(InputFileState::Extracted));
    assert!(headers[1].header.descriptors[0].same(&engine_hash("boot", b"new")));
    assert_eq!(pool.state("vbmeta_boot"), Some(InputFileState::Modified));
}

#[test]
fn images_without_dependencies_change_only_in_their_flags() {
    let mut pool = engine_pool(&["vbmeta", "vbmeta_a", "vbmeta_b"], &[], &[]);
    let clean = engine_header(b"oem key", 0, vec![engine_hash("boot", b"b")]);
    let flagged = engine_header(b"oem key", 2, vec![engine_tree("system", b"s")]);
    let mut headers = vec![engine_named("vbmeta_a", clean.duplicate()), engine_named("vbmeta_b", flagged.duplicate())];
    let order = vec![node("vbmeta_a", &[]), node("vbmeta_b", &[]), node("vbmeta_b", &[])];
    let changed = update_vbmeta_headers(&mut pool, &mut headers, &Vec::new(), &order, true, &avb_key()).unwrap();
    assert_eq!(changed, vec!["vbmeta_b"]);
    assert!(headers[0].header.same(&clean));
    assert_eq!(pool.state("vbmeta_a"), Some(InputFileState::Extracted));
    let mut expected = flagged.duplicate();
    expected.flags = 0;
    expected.public_key = b"user key".to_vec();
    expected.algorithm_type = AlgorithmType::Sha256Rsa4096;
    assert!(headers[1].header.same(&expected));
    assert_eq!(pool.state("vbmeta_b"), Some(InputFileState::Modified));
}

#[test]
fn external_image_that_was_not_patched_leaves_vbmeta_alone() {
    let mut pool = engine_pool(&["boot", "vendor", "vbmeta"], &["vendor"], &[]);
    let original = engine_header(b"oem key", 0, vec![engine_hash("boot", b"b"), engine_tree("vendor", b"old")]);
    let mut headers = vec![engine_named("vbmeta", original.duplicate())];
    let order = get_vbmeta_patch_order(&pool, &headers).unwrap();
    assert!(order[0].deps.is_empty());
    assert!(images_to_load(&headers, &order).is_empty());
    let changed = update_vbmeta_headers(&mut pool, &mut headers, &Vec::new(), &order, false, &avb_key()).unwrap();
    assert!(changed.is_empty());
    assert!(headers[0].header.same(&original));
}
