use avbroot::archive::{
    check_required_entries, classify_entry, data_descriptor_size, entry_action, metadata_source, needs_zip64,
    next_entry_offset, plan_ota_zip, EntryAction, EntryKind, InputEntry, MetadataSource, ZipEntry, PATH_METADATA,
    PATH_METADATA_PB, PATH_OTACERT, PATH_PAYLOAD, PATH_PROPERTIES,
};
use avbroot::error::OtaError;

fn entry(name: &str, size: u64, stored: bool) -> InputEntry {
    InputEntry { name: name.to_string(), size, stored }
}

fn full_archive() -> Vec<InputEntry> {
    vec![
        entry("payload_properties.txt", 150, false),
        entry("payload.bin", 0xffff_ffff, true),
        entry("apex_info.pb", 10, false),
        entry("META-INF/com/android/otacert", 1200, false),
        entry("META-INF/com/android/metadata.pb", 300, false),
        entry("META-INF/com/android/metadata", 200, false),
        entry("care_map.pb", 0xffff_fffe, true),
    ]
}

fn paths(names: &[&str]) -> Vec<String> {
    names.iter().map(|s| s.to_string()).collect()
}

#[test]
fn entries_are_classified_by_path() {
    assert_eq!(classify_entry("META-INF/com/android/metadata"), EntryKind::LegacyMetadata);
    assert_eq!(classify_entry("META-INF/com/android/metadata.pb"), EntryKind::ProtobufMetadata);
    assert_eq!(classify_entry("META-INF/com/android/otacert"), EntryKind::OtaCertificate);
    assert_eq!(classify_entry("payload.bin"), EntryKind::Payload);
    assert_eq!(classify_entry("payload_properties.txt"), EntryKind::Properties);
    assert_eq!(classify_entry("care_map.pb"), EntryKind::Other);
    assert_eq!(classify_entry("Payload.bin"), EntryKind::Other);
    assert_eq!(classify_entry(""), EntryKind::Other);
    assert_eq!(classify_entry(PATH_METADATA), EntryKind::LegacyMetadata);
    assert_eq!(classify_entry(PATH_METADATA_PB), EntryKind::ProtobufMetadata);
    assert_eq!(classify_entry(PATH_OTACERT), EntryKind::OtaCertificate);
    assert_eq!(classify_entry(PATH_PAYLOAD), EntryKind::Payload);
    assert_eq!(classify_entry(PATH_PROPERTIES), EntryKind::Properties);
}

#[test]
fn each_kind_has_its_action() {
    assert_eq!(entry_action(EntryKind::LegacyMetadata), EntryAction::ReadLegacyMetadata);
    assert_eq!(entry_action(EntryKind::ProtobufMetadata), EntryAction::ReadProtobufMetadata);
    assert_eq!(entry_action(EntryKind::OtaCertificate), EntryAction::WriteCertificate);
    assert_eq!(entry_action(EntryKind::Payload), EntryAction::PatchPayload);
    assert_eq!(entry_action(EntryKind::Properties), EntryAction::WriteProperties);
    assert_eq!(entry_action(EntryKind::Other), EntryAction::Copy);
}

#[test]
fn zip64_begins_at_the_last_32_bit_size() {
    assert!(needs_zip64(0xffff_ffff));
    assert!(!needs_zip64(0xffff_fffe));
    assert!(needs_zip64(0x1_0000_0000));
    assert!(needs_zip64(u64::MAX));
    assert!(!needs_zip64(0));
}

#[test]
fn data_descriptor_grows_with_zip64() {
    assert_eq!(data_descriptor_size(false), 16);
    assert_eq!(data_descriptor_size(true), 24);
}

#[test]
fn protobuf_metadata_takes_precedence() {
    assert_eq!(metadata_source(true, true), Some(MetadataSource::Protobuf));
    assert_eq!(metadata_source(false, true), Some(MetadataSource::Protobuf));
    assert_eq!(metadata_source(true, false), Some(MetadataSource::Legacy));
    assert_eq!(metadata_source(false, false), None);
}

#[test]
fn required_entries_are_checked() {
    assert!(check_required_entries(&paths(&[PATH_OTACERT, PATH_PAYLOAD, PATH_PROPERTIES, PATH_METADATA])).is_ok());
    assert!(check_required_entries(&paths(&[PATH_PROPERTIES, PATH_METADATA_PB, PATH_PAYLOAD, "x", PATH_OTACERT])).is_ok());
    match check_required_entries(&paths(&[PATH_PAYLOAD, PATH_METADATA])) {
        Err(OtaError::MissingEntries(m)) => assert_eq!(m, vec![PATH_OTACERT, PATH_PROPERTIES]),
        other => panic!("{:?}", other),
    }
    match check_required_entries(&Vec::new()) {
        Err(OtaError::MissingEntries(m)) => assert_eq!(m, vec![PATH_OTACERT, PATH_PAYLOAD, PATH_PROPERTIES]),
        other => panic!("{:?}", other),
    }
    assert!(matches!(
        check_required_entries(&paths(&[PATH_OTACERT, PATH_PAYLOAD, PATH_PROPERTIES])),
        Err(OtaError::MissingMetadata)
    ));
}

#[test]
fn plan_goes_through_the_entries_in_ascending_order() {
    let plan = plan_ota_zip(&full_archive()).unwrap();
    let names: Vec<&str> = plan.iter().map(|p| p.name.as_str()).collect();
    assert_eq!(
        names,
        vec![
            "META-INF/com/android/metadata",
            "META-INF/com/android/metadata.pb",
            "META-INF/com/android/otacert",
            "apex_info.pb",
            "care_map.pb",
            "payload.bin",
            "payload_properties.txt",
        ]
    );
    let actions: Vec<EntryAction> = plan.iter().map(|p| p.action).collect();
    assert_eq!(
        actions,
        vec![
            EntryAction::ReadLegacyMetadata,
            EntryAction::ReadProtobufMetadata,
            EntryAction::WriteCertificate,
            EntryAction::Copy,
            EntryAction::Copy,
            EntryAction::PatchPayload,
            EntryAction::WriteProperties,
        ]
    );
    let zip64: Vec<bool> = plan.iter().map(|p| p.zip64).collect();
    assert_eq!(zip64, vec![false, false, false, false, false, true, false]);
}

#[test]
fn compressed_payload_is_refused() {
    let mut entries = full_archive();
    entries[1].stored = false;
    assert!(matches!(plan_ota_zip(&entries), Err(OtaError::PayloadNotStored)));
}

#[test]
fn archive_without_required_entries_is_refused() {
    let mut entries = full_archive();
    entries.remove(3);
    match plan_ota_zip(&entries) {
        Err(OtaError::MissingEntries(m)) => assert_eq!(m, vec!["META-INF/com/android/otacert"]),
        other => panic!("{:?}", other),
    }
    let mut no_metadata = full_archive();
    no_metadata.remove(5);
    no_metadata.remove(4);
    assert!(matches!(plan_ota_zip(&no_metadata), Err(OtaError::MissingMetadata)));
    let mut missing_and_compressed = full_archive();
    missing_and_compressed[1].stored = false;
    missing_and_compressed.remove(0);
    assert!(matches!(plan_ota_zip(&missing_and_compressed), Err(OtaError::MissingEntries(_))));
}

#[test]
fn next_entry_begins_behind_the_data_descriptor() {
    let entries = vec![
        ZipEntry { name: "a".to_string(), offset: 40, size: 100 },
        ZipEntry { name: "b".to_string(), offset: 1000, size: 2500 },
    ];
    assert_eq!(next_entry_offset(&entries, false).unwrap(), 3516);
    assert_eq!(next_entry_offset(&entries, true).unwrap(), 3524);
    let one = vec![ZipEntry { name: "a".to_string(), offset: 0, size: 0 }];
    assert_eq!(next_entry_offset(&one, false).unwrap(), 16);
}

#[test]
fn next_entry_needs_an_entry_and_room() {
    assert!(matches!(next_entry_offset(&Vec::new(), false), Err(OtaError::NoEntries)));
    let far = vec![ZipEntry { name: "a".to_string(), offset: u64::MAX - 20, size: 4 }];
    assert_eq!(next_entry_offset(&far, false).unwrap(), u64::MAX);
    assert!(matches!(next_entry_offset(&far, true), Err(OtaError::ArchiveTooLarge)));
    let wide = vec![ZipEntry { name: "a".to_string(), offset: u64::MAX, size: 1 }];
    assert!(matches!(next_entry_offset(&wide, false), Err(OtaError::ArchiveTooLarge)));
}
