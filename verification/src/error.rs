//! The ways in which patching or verifying a package fails.

use vstd::prelude::*;

verus! {

/// A fatal error. Each variant names the partitions or entries it is about;
/// none is recovered from inside the library.
#[derive(Debug)]
pub enum OtaError {
    /// Required entries that the archive lacks, in ascending order.
    MissingEntries(Vec<String>),
    /// The archive holds neither the legacy nor the protobuf metadata entry.
    MissingMetadata,
    /// The payload entry of the archive is compressed.
    PayloadNotStored,
    /// The offset behind the last entry does not fit in 64 bits.
    ArchiveTooLarge,
    /// The archive has no entry to take an offset from.
    NoEntries,
    /// The payload depends on the contents of an earlier release.
    DeltaPayload,
    /// A replacement image was given for a partition that the payload lacks.
    ReplaceMissingPartition(String),
    /// The payload has no system partition.
    NoSystemPartition,
    /// A partition name that is no plain file name.
    UnsafePartitionName(String),
    /// A vbmeta partition whose image carries a footer.
    VbmetaHasFooter(String),
    /// Boot-like or vbmeta-like partitions that no vbmeta image covers.
    Unprotected(Vec<String>),
    /// More than one vbmeta image that nothing refers to, in ascending order.
    MultipleRoots(Vec<String>),
    /// The vbmeta images refer to each other in a circle.
    DependencyCycle,
    /// The header flags of a vbmeta image disable verified boot.
    FlagsSet { name: String, flags: u32 },
    /// No header was supplied for an image that a vbmeta image depends on.
    MissingHeader(String),
    /// `parent` has no descriptor for `child`, which it is said to depend
    /// on.
    MissingDescriptor { child: String, parent: String },
    /// No signing algorithm goes with a key of this many bits.
    UnsupportedKeySize(u32),
    /// An unsigned image carries no descriptor for itself.
    MissingSelfDescriptor(String),
    /// The descriptor of `child` in `parent` is of another type than the
    /// child's own.
    DescriptorMismatch { child: String, parent: String },
    /// `child` is signed, but its descriptor in `parent` is no chain
    /// descriptor.
    NotChainDescriptor { child: String, parent: String },
    /// An operation with data has no offset.
    MissingDataOffset { partition: usize, operation: usize },
    /// The offset of an operation's data does not fit in 64 bits.
    OffsetOverflow { partition: usize, operation: usize },
    /// An operation of the payload that the manifest does not hold.
    NoSuchOperation { partition: usize, operation: usize },
    /// The manifest has no partition of this name.
    PartitionNotFound(String),
    /// The manifest declares no digest for the partition.
    HashNotFound(String),
    /// An image is too long to be hashed.
    ImageTooLarge(String),
    /// The SHA-256 digest of an image is not the declared one. Both digests
    /// are in lower-case hexadecimal.
    DigestMismatch { name: String, expected: String, actual: String },
    /// The certificate in the signature is not the one in the archive.
    EmbeddedCertificateMismatch,
    /// The package is signed, but not with the trusted certificate.
    UntrustedCertificate,
    /// The property files of the metadata have no entry for the payload.
    MissingPropertyFile,
    /// No boot image carries the list of OTA certificates.
    NoOtaCertificates,
    /// The certificate list of a boot image lacks the OTA certificate.
    CertificateNotInBootImage(String),
    /// The shared cancel flag was seen set.
    Cancelled,
}

} // verus!
