//! Decisions of the archive rewriter: which entries an update archive must
//! hold, in which order they are written, what is done with each of them,
//! and where the next entry begins.

use vstd::prelude::*;
use vstd::string::*;
use crate::error::OtaError;
use crate::text::{
    contains_name, lemma_lex_lt_irreflexive, lemma_lex_lt_transitive, lemma_position_is, lex_lt,
    names_view, position_of, sorted_unique, str_eq, strictly_sorted,
};

verus! {

/// The legacy text metadata.
pub const PATH_METADATA: &'static str = "META-INF/com/android/metadata";

/// The protobuf metadata.
pub const PATH_METADATA_PB: &'static str = "META-INF/com/android/metadata.pb";

/// The certificate that the archive is signed with.
pub const PATH_OTACERT: &'static str = "META-INF/com/android/otacert";

/// The payload.
pub const PATH_PAYLOAD: &'static str = "payload.bin";

/// The properties of the payload.
pub const PATH_PROPERTIES: &'static str = "payload_properties.txt";

/// From this size on an entry is written with zip64 extensions.
pub const ZIP64_THRESHOLD: u64 = 0xffff_ffff;

/// What an entry of the archive is.
#[derive(Clone, Copy, Debug, PartialEq, Eq, Structural)]
pub enum EntryKind {
    LegacyMetadata,
    ProtobufMetadata,
    OtaCertificate,
    Payload,
    Properties,
    Other,
}

/// What is done with an entry of the archive.
#[derive(Clone, Copy, Debug, PartialEq, Eq, Structural)]
pub enum EntryAction {
    /// The legacy metadata is read. It is written anew at the end.
    ReadLegacyMetadata,
    /// The protobuf metadata is read. It is written anew at the end.
    ReadProtobufMetadata,
    /// The user's certificate is written in place of the entry.
    WriteCertificate,
    /// The payload is patched and written.
    PatchPayload,
    /// The properties of the new payload are written.
    WriteProperties,
    /// The entry is copied as it is.
    Copy,
}

/// The kind of the entry with this path.
pub open spec fn kind_of(path: Seq<char>) -> EntryKind {
    if path == PATH_METADATA@ {
        EntryKind::LegacyMetadata
    } else if path == PATH_METADATA_PB@ {
        EntryKind::ProtobufMetadata
    } else if path == PATH_OTACERT@ {
        EntryKind::OtaCertificate
    } else if path == PATH_PAYLOAD@ {
        EntryKind::Payload
    } else if path == PATH_PROPERTIES@ {
        EntryKind::Properties
    } else {
        EntryKind::Other
    }
}

/// What is done with an entry of this kind.
pub open spec fn action_for(kind: EntryKind) -> EntryAction {
    match kind {
        EntryKind::LegacyMetadata => EntryAction::ReadLegacyMetadata,
        EntryKind::ProtobufMetadata => EntryAction::ReadProtobufMetadata,
        EntryKind::OtaCertificate => EntryAction::WriteCertificate,
        EntryKind::Payload => EntryAction::PatchPayload,
        EntryKind::Properties => EntryAction::WriteProperties,
        EntryKind::Other => EntryAction::Copy,
    }
}

/// The kind of the entry with this path.
pub fn classify_entry(path: &str) -> (r: EntryKind)
    ensures
        r == kind_of(path@),
{
    if str_eq(path, PATH_METADATA) {
        EntryKind::LegacyMetadata
    } else if str_eq(path, PATH_METADATA_PB) {
        EntryKind::ProtobufMetadata
    } else if str_eq(path, PATH_OTACERT) {
        EntryKind::OtaCertificate
    } else if str_eq(path, PATH_PAYLOAD) {
        EntryKind::Payload
    } else if str_eq(path, PATH_PROPERTIES) {
        EntryKind::Properties
    } else {
        EntryKind::Other
    }
}

/// What is done with an entry of this kind.
pub fn entry_action(kind: EntryKind) -> (r: EntryAction)
    ensures
        r == action_for(kind),
{
    match kind {
        EntryKind::LegacyMetadata => EntryAction::ReadLegacyMetadata,
        EntryKind::ProtobufMetadata => EntryAction::ReadProtobufMetadata,
        EntryKind::OtaCertificate => EntryAction::WriteCertificate,
        EntryKind::Payload => EntryAction::PatchPayload,
        EntryKind::Properties => EntryAction::WriteProperties,
        EntryKind::Other => EntryAction::Copy,
    }
}

/// Whether an entry of this size is written with zip64 extensions. The
/// installer on the device reads the sizes of a data descriptor as 64-bit
/// numbers only from this size on.
pub fn needs_zip64(size: u64) -> (r: bool)
    ensures
        r == (size >= 0xffff_ffff),
{
    size >= ZIP64_THRESHOLD
}

/// The size of the data descriptor that follows an entry.
pub fn data_descriptor_size(zip64: bool) -> (r: u64)
    ensures
        r == if zip64 {
            24u64
        } else {
            16u64
        },
{
    if zip64 {
        24
    } else {
        16
    }
}

/// Which of the two metadata entries is the one to go by.
#[derive(Clone, Copy, Debug, PartialEq, Eq, Structural)]
pub enum MetadataSource {
    Legacy,
    Protobuf,
}

/// The metadata to go by: the protobuf form where the archive has it, else
/// the legacy form, and nothing where it has neither.
pub fn metadata_source(has_legacy: bool, has_protobuf: bool) -> (r: Option<MetadataSource>)
    ensures
        r == if has_protobuf {
            Some(MetadataSource::Protobuf)
        } else if has_legacy {
            Some(MetadataSource::Legacy)
        } else {
            None
        },
{
    if has_protobuf {
        Some(MetadataSource::Protobuf)
    } else if has_legacy {
        Some(MetadataSource::Legacy)
    } else {
        None
    }
}

/// An entry of the archive that is read.
#[derive(Debug)]
pub struct InputEntry {
    pub name: String,
    pub size: u64,
    pub stored: bool,
}

/// An entry of the archive that is written, with what is done for it.
#[derive(Debug)]
pub struct EntryPlan {
    pub name: String,
    pub action: EntryAction,
    pub zip64: bool,
}

/// An entry that was written: its name, where its data begins, and how
/// long the data is.
#[derive(Debug)]
pub struct ZipEntry {
    pub name: String,
    pub offset: u64,
    pub size: u64,
}

/// The names of a list of entries.
pub open spec fn input_names(entries: Seq<InputEntry>) -> Seq<Seq<char>> {
    Seq::new(entries.len(), |i: int| entries[i].name@)
}

/// The names of a plan.
pub open spec fn plan_names(plan: Seq<EntryPlan>) -> Seq<Seq<char>> {
    Seq::new(plan.len(), |i: int| plan[i].name@)
}

/// The required entries that `names` lacks: the certificate, the payload
/// and its properties, in this order.
pub open spec fn missing_required(names: Seq<Seq<char>>) -> Seq<Seq<char>> {
    let a = if names.contains(PATH_OTACERT@) {
        Seq::<Seq<char>>::empty()
    } else {
        seq![PATH_OTACERT@]
    };
    let b = if names.contains(PATH_PAYLOAD@) {
        a
    } else {
        a.push(PATH_PAYLOAD@)
    };
    if names.contains(PATH_PROPERTIES@) {
        b
    } else {
        b.push(PATH_PROPERTIES@)
    }
}

/// The archive has one of the two metadata entries.
pub open spec fn has_metadata(names: Seq<Seq<char>>) -> bool {
    names.contains(PATH_METADATA@) || names.contains(PATH_METADATA_PB@)
}

/// Checks that the archive holds the certificate, the payload, its
/// properties and at least one form of the metadata.
pub fn check_required_entries(names: &Vec<String>) -> (r: Result<(), OtaError>)
    ensures
        r is Ok <==> missing_required(names_view(names@)).len() == 0 && has_metadata(
            names_view(names@),
        ),
        r matches Err(e) ==> if missing_required(names_view(names@)).len() > 0 {
            e matches OtaError::MissingEntries(m) && names_view(m@) == missing_required(
                names_view(names@),
            )
        } else {
            e is MissingMetadata
        },
{
    let mut missing: Vec<String> = Vec::new();
    if !contains_name(names, PATH_OTACERT) {
        missing.push(PATH_OTACERT.to_owned());
    }
    let ghost a = names_view(missing@);
    if !contains_name(names, PATH_PAYLOAD) {
        missing.push(PATH_PAYLOAD.to_owned());
    }
    let ghost b = names_view(missing@);
    if !contains_name(names, PATH_PROPERTIES) {
        missing.push(PATH_PROPERTIES.to_owned());
    }
    proof {
        let nv = names_view(names@);
        let a0 = if nv.contains(PATH_OTACERT@) {
            Seq::<Seq<char>>::empty()
        } else {
            seq![PATH_OTACERT@]
        };
        assert(a =~= a0);
        let b0 = if nv.contains(PATH_PAYLOAD@) {
            a0
        } else {
            a0.push(PATH_PAYLOAD@)
        };
        assert(b =~= b0);
        assert(names_view(missing@) =~= missing_required(nv));
    }
    if missing.len() > 0 {
        Err(OtaError::MissingEntries(missing))
    } else if !contains_name(names, PATH_METADATA) && !contains_name(names, PATH_METADATA_PB) {
        Err(OtaError::MissingMetadata)
    } else {
        Ok(())
    }
}

fn find_entry(entries: &Vec<InputEntry>, name: &str) -> (r: Option<usize>)
    ensures
        match r {
            Some(i) => i < entries@.len() && i == position_of(input_names(entries@), name@),
            None => position_of(input_names(entries@), name@) == entries@.len(),
        },
{
    let mut i: usize = 0;
    while i < entries.len()
        invariant
            i <= entries.len(),
            forall|j: int| 0 <= j < i ==> input_names(entries@)[j] != name@,
        decreases entries.len() - i,
    {
        if str_eq(entries[i].name.as_str(), name) {
            proof {
                lemma_position_is(input_names(entries@), name@, i as int);
            }
            return Some(i);
        }
        i += 1;
    }
    proof {
        lemma_position_is(input_names(entries@), name@, i as int);
    }
    None
}

/// The payload entry of the archive is compressed.
pub open spec fn payload_compressed(entries: Seq<InputEntry>) -> bool {
    let at = position_of(input_names(entries), PATH_PAYLOAD@);
    at < entries.len() && !entries[at].stored
}

/// `plan` is the plan for `entries`: it names every entry once, in
/// ascending order, and says for each what its kind asks for and whether
/// its size asks for zip64.
pub open spec fn is_plan_for(plan: Seq<EntryPlan>, entries: Seq<InputEntry>) -> bool {
    &&& strictly_sorted(plan_names(plan))
    &&& forall|n: Seq<char>| plan_names(plan).contains(n) <==> input_names(entries).contains(n)
    &&& forall|k: int|
        0 <= k < plan.len() ==> (#[trigger] plan[k]).action == action_for(kind_of(plan[k].name@))
            && plan[k].zip64 == (entries[position_of(
            input_names(entries),
            plan[k].name@,
        )].size >= 0xffff_ffff)
}

/// Plans the rewriting of an archive. The entries are gone through in
/// ascending order of their names, so that the same input gives the same
/// output and the payload comes before its properties. The archive is
/// refused where it lacks a required entry, where it has no metadata, and
/// where its payload is compressed.
pub fn plan_ota_zip(entries: &Vec<InputEntry>) -> (r: Result<Vec<EntryPlan>, OtaError>)
    ensures
        r is Ok <==> missing_required(input_names(entries@)).len() == 0 && has_metadata(
            input_names(entries@),
        ) && !payload_compressed(entries@),
        r matches Ok(plan) ==> is_plan_for(plan@, entries@),
        r matches Err(e) ==> if missing_required(input_names(entries@)).len() > 0 {
            e matches OtaError::MissingEntries(m) && names_view(m@) == missing_required(
                input_names(entries@),
            )
        } else if !has_metadata(input_names(entries@)) {
            e is MissingMetadata
        } else {
            e is PayloadNotStored
        },
{
    let ghost all = input_names(entries@);
    let mut names: Vec<String> = Vec::new();
    let mut i: usize = 0;
    while i < entries.len()
        invariant
            i <= entries.len(),
            names@.len() == i,
            forall|j: int| 0 <= j < i ==> names@[j]@ == entries@[j].name@,
        decreases entries.len() - i,
    {
        names.push(entries[i].name.clone());
        i += 1;
    }
    assert(names_view(names@) =~= all);
    match check_required_entries(&names) {
        Ok(()) => {},
        Err(e) => {
            return Err(e);
        },
    }
    match find_entry(entries, PATH_PAYLOAD) {
        Some(at) => {
            if !entries[at].stored {
                return Err(OtaError::PayloadNotStored);
            }
        },
        None => {},
    }
    let sorted = sorted_unique(&names);
    let ghost sv = names_view(sorted@);
    let mut plan: Vec<EntryPlan> = Vec::new();
    let mut k: usize = 0;
    while k < sorted.len()
        invariant
            k <= sorted.len(),
            all == input_names(entries@),
            sv == names_view(sorted@),
            forall|n: Seq<char>| sv.contains(n) <==> all.contains(n),
            plan@.len() == k,
            forall|j: int|
                0 <= j < k ==> (#[trigger] plan@[j]).name@ == sv[j] && plan@[j].action
                    == action_for(kind_of(sv[j])) && plan@[j].zip64 == (entries@[position_of(
                    all,
                    sv[j],
                )].size >= 0xffff_ffff),
        decreases sorted.len() - k,
    {
        let name = sorted[k].as_str();
        proof {
            assert(sv[k as int] == name@);
            assert(sv.contains(name@));
            crate::text::lemma_position_of(all, name@);
        }
        let size = match find_entry(entries, name) {
            Some(at) => entries[at].size,
            None => 0,
        };
        plan.push(
            EntryPlan {
                name: sorted[k].clone(),
                action: entry_action(classify_entry(name)),
                zip64: needs_zip64(size),
            },
        );
        k += 1;
    }
    proof {
        assert(plan_names(plan@) =~= sv);
    }
    Ok(plan)
}

/// What the offset behind the last entry comes to.
pub enum OffsetOutcome {
    At(u64),
    NoEntries,
    Overflow,
}

/// The offset at which the next entry would begin: behind the data of the
/// last entry and its data descriptor.
pub open spec fn offset_after(entries: Seq<ZipEntry>, last_zip64: bool) -> OffsetOutcome {
    if entries.len() == 0 {
        OffsetOutcome::NoEntries
    } else {
        let end = entries.last().offset + entries.last().size + if last_zip64 {
            24int
        } else {
            16int
        };
        if end > u64::MAX {
            OffsetOutcome::Overflow
        } else {
            OffsetOutcome::At(end as u64)
        }
    }
}

/// The offset at which the entry after the last one would begin.
pub fn next_entry_offset(entries: &Vec<ZipEntry>, last_entry_used_zip64: bool) -> (r: Result<
    u64,
    OtaError,
>)
    ensures
        match offset_after(entries@, last_entry_used_zip64) {
            OffsetOutcome::At(offset) => r == Ok::<u64, OtaError>(offset),
            OffsetOutcome::NoEntries => r matches Err(e) && e is NoEntries,
            OffsetOutcome::Overflow => r matches Err(e) && e is ArchiveTooLarge,
        },
{
    if entries.len() == 0 {
        return Err(OtaError::NoEntries);
    }
    let last = &entries[entries.len() - 1];
    match last.offset.checked_add(last.size) {
        Some(end) => match end.checked_add(data_descriptor_size(last_entry_used_zip64)) {
            Some(next) => Ok(next),
            None => Err(OtaError::ArchiveTooLarge),
        },
        None => Err(OtaError::ArchiveTooLarge),
    }
}

/// Two names that agree up to a place, and differ there, are ordered by the
/// characters at that place.
pub proof fn lemma_lex_lt_at(a: Seq<char>, b: Seq<char>, k: int)
    requires
        0 <= k < a.len(),
        k < b.len(),
        forall|i: int| 0 <= i < k ==> a[i] == b[i],
        (a[k] as u32) < (b[k] as u32),
    ensures
        lex_lt(a, b),
    decreases k,
{
    if k > 0 {
        assert forall|i: int| 0 <= i < k - 1 implies a.drop_first()[i] == b.drop_first()[i] by {
            assert(a[i + 1] == b[i + 1]);
        }
        lemma_lex_lt_at(a.drop_first(), b.drop_first(), k - 1);
    }
}

/// In a plan the payload comes before its properties, so that the
/// properties of the new payload are known when they are written.
pub proof fn lemma_payload_before_properties(names: Seq<Seq<char>>, a: int, b: int)
    requires
        strictly_sorted(names),
        0 <= a < names.len(),
        0 <= b < names.len(),
        names[a] == PATH_PAYLOAD@,
        names[b] == PATH_PROPERTIES@,
    ensures
        a < b,
{
    reveal_strlit("payload.bin");
    reveal_strlit("payload_properties.txt");
    lemma_lex_lt_at(PATH_PAYLOAD@, PATH_PROPERTIES@, 7);
    lemma_lex_lt_irreflexive(PATH_PAYLOAD@);
    if b < a {
        lemma_lex_lt_transitive(PATH_PAYLOAD@, PATH_PROPERTIES@, PATH_PAYLOAD@);
    }
}

} // verus!
