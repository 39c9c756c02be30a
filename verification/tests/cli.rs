use avbroot::cli::{
    default_output, deprecated_option_given, output_mode, output_path, replaced_names, replacements, root_patch,
    LogFormat, LogLevel, RootGroup, RootPatch,
};

#[test]
fn log_options_have_defaults() {
    assert_eq!(LogLevel::default(), LogLevel::Info);
    assert_eq!(LogFormat::default(), LogFormat::Short);
}

#[test]
fn log_options_have_names() {
    assert_eq!(LogLevel::Trace.name(), "trace");
    assert_eq!(LogLevel::Debug.name(), "debug");
    assert_eq!(LogLevel::Info.name(), "info");
    assert_eq!(LogLevel::Warn.name(), "warn");
    assert_eq!(LogLevel::Error.name(), "error");
    assert_eq!(LogFormat::Short.name(), "short");
    assert_eq!(LogFormat::Medium.name(), "medium");
    assert_eq!(LogFormat::Long.name(), "long");
    assert_eq!(LogFormat::Json.name(), "json");
}

#[test]
fn root_patch_follows_the_options() {
    let magisk = RootGroup { magisk: Some("magisk.apk".to_string()), prepatched: None, rootless: false };
    assert!(matches!(root_patch(&magisk, 0), RootPatch::Magisk(p) if p == "magisk.apk"));
    let prepatched = RootGroup { magisk: None, prepatched: Some("boot.img".to_string()), rootless: false };
    assert!(matches!(root_patch(&prepatched, 0), RootPatch::Prepatched { path, fatal_level: 1 } if path == "boot.img"));
    assert!(matches!(root_patch(&prepatched, 2), RootPatch::Prepatched { fatal_level: 3, .. }));
    assert!(matches!(root_patch(&prepatched, 254), RootPatch::Prepatched { fatal_level: 255, .. }));
    let rootless = RootGroup { magisk: None, prepatched: None, rootless: true };
    assert!(matches!(root_patch(&rootless, 0), RootPatch::Rootless));
}

#[test]
fn replacements_come_in_pairs() {
    let arguments: Vec<String> = ["system", "./my_system.img", "boot", "/tmp/boot.img", "left"].iter().map(|s| s.to_string()).collect();
    let pairs = replacements(&arguments);
    assert_eq!(pairs.len(), 2);
    assert_eq!(pairs[0].name, "system");
    assert_eq!(pairs[0].path, "./my_system.img");
    assert_eq!(pairs[1].name, "boot");
    assert_eq!(pairs[1].path, "/tmp/boot.img");
    assert_eq!(replaced_names(&pairs), vec!["system", "boot"]);
    assert!(replacements(&Vec::new()).is_empty());
    assert!(replacements(&vec!["one".to_string()]).is_empty());
}

#[test]
fn output_defaults_to_the_input_with_a_suffix() {
    assert_eq!(default_output("ota.zip"), "ota.zip.patched");
    assert_eq!(default_output(""), ".patched");
    assert_eq!(output_path("ota.zip", &None), "ota.zip.patched");
    assert_eq!(output_path("ota.zip", &Some("out.zip".to_string())), "out.zip");
}

#[test]
fn output_mode_follows_the_mask() {
    assert_eq!(output_mode(0o022), 0o644);
    assert_eq!(output_mode(0o077), 0o600);
    assert_eq!(output_mode(0), 0o666);
    assert_eq!(output_mode(0o777), 0);
    assert_eq!(output_mode(0o002), 0o664);
    assert_eq!(output_mode(u32::MAX), 0);
}

#[test]
fn deprecated_option_is_noticed() {
    assert!(deprecated_option_given(&Some("boot".to_string())));
    assert!(!deprecated_option_given(&None));
}
