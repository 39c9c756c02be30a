//! The options of the command line, as plain values, and what follows
//! from them.

use vstd::prelude::*;
use vstd::string::*;

verus! {

/// The lowest severity of the log messages that are printed.
#[derive(Clone, Copy, Debug, PartialEq, Eq, Structural)]
pub enum LogLevel {
    Trace,
    Debug,
    Info,
    Warn,
    Error,
}

impl Default for LogLevel {
    fn default() -> (r: Self)
        ensures
            r == LogLevel::Info,
    {
        LogLevel::Info
    }
}

impl LogLevel {
    /// The name of the level on the command line.
    pub open spec fn spec_name(self) -> Seq<char> {
        match self {
            LogLevel::Trace => "trace"@,
            LogLevel::Debug => "debug"@,
            LogLevel::Info => "info"@,
            LogLevel::Warn => "warn"@,
            LogLevel::Error => "error"@,
        }
    }

    /// The name of the level on the command line.
    pub fn name(&self) -> (r: &'static str)
        ensures
            r@ == self.spec_name(),
    {
        match self {
            LogLevel::Trace => "trace",
            LogLevel::Debug => "debug",
            LogLevel::Info => "info",
            LogLevel::Warn => "warn",
            LogLevel::Error => "error",
        }
    }
}

/// The form in which log messages are printed.
#[derive(Clone, Copy, Debug, PartialEq, Eq, Structural)]
pub enum LogFormat {
    Short,
    Medium,
    Long,
    Json,
}

impl Default for LogFormat {
    fn default() -> (r: Self)
        ensures
            r == LogFormat::Short,
    {
        LogFormat::Short
    }
}

impl LogFormat {
    /// The name of the format on the command line.
    pub open spec fn spec_name(self) -> Seq<char> {
        match self {
            LogFormat::Short => "short"@,
            LogFormat::Medium => "medium"@,
            LogFormat::Long => "long"@,
            LogFormat::Json => "json"@,
        }
    }

    /// The name of the format on the command line.
    pub fn name(&self) -> (r: &'static str)
        ensures
            r@ == self.spec_name(),
    {
        match self {
            LogFormat::Short => "short",
            LogFormat::Medium => "medium",
            LogFormat::Long => "long",
            LogFormat::Json => "json",
        }
    }
}

/// How root access is added. Exactly one of the three is given.
#[derive(Debug)]
pub struct RootGroup {
    /// Path to the Magisk package.
    pub magisk: Option<String>,
    /// Path to a boot image that is patched already.
    pub prepatched: Option<String>,
    /// No root access is added.
    pub rootless: bool,
}

/// The options of `patch`.
#[derive(Debug)]
pub struct PatchCli {
    pub input: String,
    pub output: Option<String>,
    pub key_avb: String,
    pub key_ota: String,
    pub cert_ota: String,
    pub pass_avb_env_var: Option<String>,
    pub pass_avb_file: Option<String>,
    pub pass_ota_env_var: Option<String>,
    pub pass_ota_file: Option<String>,
    /// Partition names and files, in turn.
    pub replace: Vec<String>,
    pub root: RootGroup,
    pub magisk_preinit_device: Option<String>,
    pub magisk_random_seed: Option<u64>,
    pub ignore_magisk_warnings: bool,
    pub ignore_prepatched_compat: u8,
    pub clear_vbmeta_flags: bool,
    /// No longer needed.
    pub boot_partition: Option<String>,
}

/// The options of `extract`.
#[derive(Debug)]
pub struct ExtractCli {
    pub input: String,
    pub directory: String,
    pub all: bool,
    pub boot_only: bool,
    /// No longer needed.
    pub boot_partition: Option<String>,
}

/// The options of `verify`.
#[derive(Debug)]
pub struct VerifyCli {
    pub input: String,
    pub cert_ota: Option<String>,
    pub public_key_avb: Option<String>,
}

/// The root patch that the options ask for.
#[derive(Debug)]
pub enum RootPatch {
    /// Root access through Magisk, from the package at this path.
    Magisk(String),
    /// The boot image at this path is taken as it is. Problems up to
    /// `fatal_level` are passed over.
    Prepatched { path: String, fatal_level: u8 },
    /// No root access.
    Rootless,
}

/// The view of a root patch.
pub enum RootPatchView {
    Magisk(Seq<char>),
    Prepatched { path: Seq<char>, fatal_level: u8 },
    Rootless,
}

impl View for RootPatch {
    type V = RootPatchView;

    open spec fn view(&self) -> RootPatchView {
        match self {
            RootPatch::Magisk(p) => RootPatchView::Magisk(p@),
            RootPatch::Prepatched { path, fatal_level } => RootPatchView::Prepatched {
                path: path@,
                fatal_level: *fatal_level,
            },
            RootPatch::Rootless => RootPatchView::Rootless,
        }
    }
}

/// Picks the root patch: Magisk where its package is given, else the
/// prepatched image where that is given, else none. Each time that the
/// option to ignore problems of a prepatched image is given, one more
/// level of problems is passed over.
pub fn root_patch(root: &RootGroup, ignore_prepatched_compat: u8) -> (r: RootPatch)
    requires
        root.magisk is Some || root.prepatched is Some || root.rootless,
        root.magisk is None && root.prepatched is Some ==> ignore_prepatched_compat < 255,
    ensures
        r@ == match (root.magisk, root.prepatched) {
            (Some(m), _) => RootPatchView::Magisk(m@),
            (None, Some(p)) => RootPatchView::Prepatched {
                path: p@,
                fatal_level: (ignore_prepatched_compat + 1) as u8,
            },
            (None, None) => RootPatchView::Rootless,
        },
{
    match &root.magisk {
        Some(m) => RootPatch::Magisk(m.clone()),
        None => match &root.prepatched {
            Some(p) => RootPatch::Prepatched {
                path: p.clone(),
                fatal_level: ignore_prepatched_compat + 1,
            },
            None => RootPatch::Rootless,
        },
    }
}

/// A partition with the file that replaces its image.
#[derive(Debug)]
pub struct Replacement {
    pub name: String,
    pub path: String,
}

/// Pairs the arguments of the replace option: a partition name, then the
/// file for it. An argument that is left over at the end is passed over.
pub fn replacements(arguments: &Vec<String>) -> (r: Vec<Replacement>)
    ensures
        r@.len() == arguments@.len() / 2,
        forall|k: int|
            0 <= k < r@.len() ==> (#[trigger] r@[k]).name@ == arguments@[2 * k]@ && r@[k].path@
                == arguments@[2 * k + 1]@,
{
    let mut out: Vec<Replacement> = Vec::new();
    let mut i: usize = 0;
    while i + 1 < arguments.len()
        invariant
            i % 2 == 0,
            i <= arguments.len(),
            out@.len() == i / 2,
            forall|k: int|
                0 <= k < out@.len() ==> (#[trigger] out@[k]).name@ == arguments@[2 * k]@
                    && out@[k].path@ == arguments@[2 * k + 1]@,
        decreases arguments.len() - i,
    {
        out.push(Replacement { name: arguments[i].clone(), path: arguments[i + 1].clone() });
        i += 2;
    }
    out
}

/// The names of the partitions that are replaced.
pub fn replaced_names(list: &Vec<Replacement>) -> (r: Vec<String>)
    ensures
        r@.len() == list@.len(),
        forall|k: int| 0 <= k < r@.len() ==> (#[trigger] r@[k])@ == list@[k].name@,
{
    let mut out: Vec<String> = Vec::new();
    let mut i: usize = 0;
    while i < list.len()
        invariant
            i <= list.len(),
            out@.len() == i,
            forall|k: int| 0 <= k < i ==> (#[trigger] out@[k])@ == list@[k].name@,
        decreases list.len() - i,
    {
        out.push(list[i].name.clone());
        i += 1;
    }
    out
}

/// The path of the output where none is given: that of the input with
/// `.patched` behind it.
pub fn default_output(input: &str) -> (r: String)
    ensures
        r@ == input@ + ".patched"@,
{
    let mut out = input.to_owned();
    out.append(".patched");
    out
}

/// The path of the output.
pub fn output_path(input: &str, output: &Option<String>) -> (r: String)
    ensures
        r@ == match output {
            Some(o) => o@,
            None => input@ + ".patched"@,
        },
{
    match output {
        Some(o) => o.clone(),
        None => default_output(input),
    }
}

/// The permissions of the output file under a file creation mask: read and
/// write for everyone, less what the mask takes away.
pub fn output_mode(mask: u32) -> (r: u32)
    ensures
        r == 0o666u32 & !mask,
{
    0o666 & !mask
}

/// Whether an option that is no longer needed was given, and is to be
/// warned about.
pub fn deprecated_option_given(boot_partition: &Option<String>) -> (r: bool)
    ensures
        r == boot_partition is Some,
{
    boot_partition.is_some()
}

} // verus!
