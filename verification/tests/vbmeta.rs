use avbroot::avb::{
    AlgorithmType, ChainPartitionDescriptor, Descriptor, HashDescriptor, HashTreeDescriptor, Header,
    KernelCmdlineDescriptor, PropertyDescriptor,
};
use avbroot::error::OtaError;
use avbroot::vbmeta::{cmdline_prefix, update_metadata_descriptors, update_security_descriptors};

fn header_with(public_key: &[u8], descriptors: Vec<Descriptor>) -> Header {
    Header {
        required_libavb_version_major: 1,
        required_libavb_version_minor: 0,
        algorithm_type: if public_key.is_empty() { AlgorithmType::Unsigned } else { AlgorithmType::Sha256Rsa4096 },
        hash: vec![],
        signature: vec![],
        public_key: public_key.to_vec(),
        public_key_metadata: vec![],
        descriptors,
        rollback_index: 0,
        flags: 0,
        rollback_index_location: 0,
        release_string: "avbtool 1.3.0".to_string(),
    }
}

fn hash_of(name: &str, digest: &[u8]) -> Descriptor {
    Descriptor::Hash(HashDescriptor {
        image_size: 4096,
        hash_algorithm: "sha256".to_string(),
        partition_name: name.to_string(),
        salt: vec![1, 2],
        root_digest: digest.to_vec(),
        flags: 0,
    })
}

fn tree_of(name: &str, digest: &[u8]) -> Descriptor {
    Descriptor::HashTree(HashTreeDescriptor {
        dm_verity_version: 1,
        image_size: 8192,
        tree_offset: 8192,
        tree_size: 4096,
        data_block_size: 4096,
        hash_block_size: 4096,
        fec_num_roots: 2,
        fec_offset: 12288,
        fec_size: 4096,
        hash_algorithm: "sha256".to_string(),
        partition_name: name.to_string(),
        salt: vec![3],
        root_digest: digest.to_vec(),
        flags: 0,
    })
}

fn chain_of(name: &str, key: &[u8]) -> Descriptor {
    Descriptor::ChainPartition(ChainPartitionDescriptor {
        rollback_index_location: 2,
        partition_name: name.to_string(),
        public_key: key.to_vec(),
        flags: 0,
    })
}

fn property(key: &str, value: &[u8]) -> Descriptor {
    Descriptor::Property(PropertyDescriptor { key: key.to_string(), value: value.to_vec() })
}

fn cmdline(flags: u32, text: &str) -> Descriptor {
    Descriptor::KernelCmdline(KernelCmdlineDescriptor { flags, cmdline: text.to_string() })
}

#[test]
fn cmdline_prefix_is_the_text_before_the_first_equal_sign() {
    assert_eq!(cmdline_prefix("dm=1 vroot none"), Some("dm"));
    assert_eq!(cmdline_prefix("root=PARTUUID=abc"), Some("root"));
    assert_eq!(cmdline_prefix("a="), Some("a"));
    assert_eq!(cmdline_prefix("\u{e9}t\u{e9}=x"), Some("\u{e9}t\u{e9}"));
}

#[test]
fn cmdline_prefix_needs_an_equal_sign_and_text() {
    assert_eq!(cmdline_prefix("quiet"), None);
    assert_eq!(cmdline_prefix(""), None);
    assert_eq!(cmdline_prefix("=value"), None);
    assert_eq!(cmdline_prefix("="), None);
}

#[test]
fn unsigned_child_hands_its_hash_descriptor_to_the_parent() {
    let mut parent = header_with(b"key", vec![property("a", b"1"), hash_of("boot", b"old"), hash_of("dtbo", b"dt")]);
    let child = header_with(b"", vec![hash_of("other", b"zz"), hash_of("boot", b"new")]);
    assert!(update_security_descriptors(&mut parent, &child, "vbmeta", "boot").is_ok());
    assert!(parent.descriptors[1].same(&hash_of("boot", b"new")));
    assert!(parent.descriptors[0].same(&property("a", b"1")));
    assert!(parent.descriptors[2].same(&hash_of("dtbo", b"dt")));
    assert_eq!(parent.descriptors.len(), 3);
    assert_eq!(parent.public_key, b"key".to_vec());
}

#[test]
fn unsigned_child_hands_its_hash_tree_descriptor_to_the_parent() {
    let mut parent = header_with(b"key", vec![tree_of("system", b"old")]);
    let child = header_with(b"", vec![tree_of("system", b"new")]);
    assert!(update_security_descriptors(&mut parent, &child, "vbmeta", "system").is_ok());
    assert!(parent.descriptors[0].same(&tree_of("system", b"new")));
}

#[test]
fn descriptor_types_must_match() {
    let mut parent = header_with(b"key", vec![hash_of("system", b"old")]);
    let before = parent.duplicate();
    let child = header_with(b"", vec![tree_of("system", b"new")]);
    match update_security_descriptors(&mut parent, &child, "vbmeta", "system") {
        Err(OtaError::DescriptorMismatch { child, parent }) => {
            assert_eq!(child, "system");
            assert_eq!(parent, "vbmeta");
        }
        other => panic!("{:?}", other),
    }
    assert!(parent.same(&before));
    let mut chained = header_with(b"key", vec![chain_of("boot", b"k")]);
    let unsigned = header_with(b"", vec![hash_of("boot", b"new")]);
    assert!(matches!(
        update_security_descriptors(&mut chained, &unsigned, "vbmeta", "boot"),
        Err(OtaError::DescriptorMismatch { .. })
    ));
}

#[test]
fn unsigned_child_needs_a_descriptor_for_itself() {
    let mut parent = header_with(b"key", vec![hash_of("boot", b"old")]);
    let child = header_with(b"", vec![hash_of("other", b"new"), property("boot", b"x")]);
    match update_security_descriptors(&mut parent, &child, "vbmeta", "boot") {
        Err(OtaError::MissingSelfDescriptor(name)) => assert_eq!(name, "boot"),
        other => panic!("{:?}", other),
    }
    assert!(parent.descriptors[0].same(&hash_of("boot", b"old")));
}

#[test]
fn signed_child_hands_its_key_to_the_chain_descriptor() {
    let mut parent = header_with(b"key", vec![hash_of("boot", b"b"), chain_of("vbmeta_system", b"old key")]);
    let child = header_with(b"new key", vec![tree_of("system", b"s")]);
    assert!(update_security_descriptors(&mut parent, &child, "vbmeta", "vbmeta_system").is_ok());
    assert!(parent.descriptors[1].same(&chain_of("vbmeta_system", b"new key")));
    assert!(parent.descriptors[0].same(&hash_of("boot", b"b")));
}

#[test]
fn signed_child_needs_a_chain_descriptor() {
    let mut parent = header_with(b"key", vec![hash_of("vbmeta_system", b"b")]);
    let child = header_with(b"new key", vec![hash_of("vbmeta_system", b"s")]);
    match update_security_descriptors(&mut parent, &child, "vbmeta", "vbmeta_system") {
        Err(OtaError::NotChainDescriptor { child, parent }) => {
            assert_eq!(child, "vbmeta_system");
            assert_eq!(parent, "vbmeta");
        }
        other => panic!("{:?}", other),
    }
    assert!(parent.descriptors[0].same(&hash_of("vbmeta_system", b"b")));
}

#[test]
fn first_descriptor_of_the_child_is_the_one_updated() {
    let mut parent = header_with(b"key", vec![hash_of("boot", b"one"), hash_of("boot", b"two")]);
    let child = header_with(b"", vec![hash_of("boot", b"new"), hash_of("boot", b"newer")]);
    assert!(update_security_descriptors(&mut parent, &child, "vbmeta", "boot").is_ok());
    assert!(parent.descriptors[0].same(&hash_of("boot", b"new")));
    assert!(parent.descriptors[1].same(&hash_of("boot", b"two")));
}

#[test]
fn properties_are_merged_by_key() {
    let mut parent = header_with(b"key", vec![property("a", b"1"), hash_of("boot", b"b"), property("b", b"2")]);
    let child = header_with(b"", vec![property("b", b"new"), property("c", b"3"), hash_of("boot", b"x")]);
    update_metadata_descriptors(&mut parent, &child);
    assert_eq!(parent.descriptors.len(), 4);
    assert!(parent.descriptors[0].same(&property("a", b"1")));
    assert!(parent.descriptors[1].same(&hash_of("boot", b"b")));
    assert!(parent.descriptors[2].same(&property("b", b"new")));
    assert!(parent.descriptors[3].same(&property("c", b"3")));
}

#[test]
fn command_lines_are_merged_by_prefix() {
    let mut parent = header_with(b"key", vec![cmdline(1, "dm=old table"), cmdline(2, "quiet"), cmdline(0, "root=/dev/sda")]);
    let child = header_with(b"", vec![cmdline(7, "dm=new table"), cmdline(3, "noequal"), cmdline(4, "=empty"), cmdline(5, "console=ttyS0")]);
    update_metadata_descriptors(&mut parent, &child);
    assert_eq!(parent.descriptors.len(), 4);
    assert!(parent.descriptors[0].same(&cmdline(1, "dm=new table")));
    assert!(parent.descriptors[1].same(&cmdline(2, "quiet")));
    assert!(parent.descriptors[2].same(&cmdline(0, "root=/dev/sda")));
    assert!(parent.descriptors[3].same(&cmdline(5, "console=ttyS0")));
}

#[test]
fn later_descriptors_of_the_child_see_earlier_ones() {
    let mut parent = header_with(b"key", vec![]);
    let child = header_with(b"", vec![property("a", b"1"), property("a", b"2")]);
    update_metadata_descriptors(&mut parent, &child);
    assert_eq!(parent.descriptors.len(), 1);
    assert!(parent.descriptors[0].same(&property("a", b"2")));
}

#[test]
fn signed_child_merges_nothing() {
    let mut parent = header_with(b"key", vec![property("a", b"1")]);
    let before = parent.duplicate();
    let child = header_with(b"child key", vec![property("a", b"2"), cmdline(0, "x=y")]);
    update_metadata_descriptors(&mut parent, &child);
    assert!(parent.same(&before));
}

#[test]
fn headers_compare_by_content() {
    let a = header_with(b"key", vec![hash_of("boot", b"b"), property("a", b"1")]);
    let b = a.duplicate();
    assert!(a.same(&b));
    let mut c = a.duplicate();
    c.flags = 1;
    assert!(!a.same(&c));
    let d = header_with(b"key", vec![hash_of("boot", b"b")]);
    assert!(!a.same(&d));
    let e = header_with(b"key", vec![hash_of("boot", b"c"), property("a", b"1")]);
    assert!(!a.same(&e));
    assert!(a.is_signed());
    assert!(!header_with(b"", vec![]).is_signed());
    assert_eq!(a.find_descriptor("boot"), Some(0));
    assert_eq!(a.find_descriptor("a"), None);
}

#[test]
fn parent_needs_a_descriptor_for_the_child() {
    let mut parent = header_with(b"key", vec![hash_of("boot", b"old"), property("dtbo", b"x")]);
    let before = parent.duplicate();
    let child = header_with(b"", vec![hash_of("dtbo", b"new")]);
    match update_security_descriptors(&mut parent, &child, "vbmeta", "dtbo") {
        Err(OtaError::MissingDescriptor { child, parent }) => {
            assert_eq!(child, "dtbo");
            assert_eq!(parent, "vbmeta");
        }
        other => panic!("{:?}", other),
    }
    assert!(parent.same(&before));
    let signed = header_with(b"child key", vec![]);
    assert!(matches!(
        update_security_descriptors(&mut parent, &signed, "vbmeta", "vbmeta_system"),
        Err(OtaError::MissingDescriptor { .. })
    ));
    assert!(parent.same(&before));
}
