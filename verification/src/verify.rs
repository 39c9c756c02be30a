//! Checks of the verifier: digests of partition images, certificates,
//! partition names, and the choice of the images to extract.

use vstd::prelude::*;
use vstd::string::*;
use ring::digest::Context;
use crate::archive::PATH_PAYLOAD;
use crate::avb::bytes_eq;
use crate::error::OtaError;
use crate::images::{is_boot_name, is_required_name, RequiredImages};
use crate::manifest::DeltaArchiveManifest;
use crate::text::{
    lemma_position_is, names_view, position_of, sorted_unique, str_eq, strictly_sorted, to_chars,
};

verus! {

/// The sixteen hexadecimal digits, lower case.
pub open spec fn hex_digits() -> Seq<char> {
    seq!['0', '1', '2', '3', '4', '5', '6', '7', '8', '9', 'a', 'b', 'c', 'd', 'e', 'f']
}

/// The lower-case hexadecimal form of bytes: two digits for each byte, the
/// high half first.
pub open spec fn hex_of(data: Seq<u8>) -> Seq<char> {
    Seq::new(
        2 * data.len(),
        |i: int|
            if i % 2 == 0 {
                hex_digits()[data[i / 2] as int / 16]
            } else {
                hex_digits()[data[i / 2] as int % 16]
            },
    )
}

/// The SHA-256 digest of bytes.
pub uninterp spec fn sha256_digest(data: Seq<u8>) -> Seq<u8>;

/// The most bytes that can be hashed: the length in bits has to fit in 64
/// bits.
pub const SHA256_MAX_INPUT: u64 = 0x1fff_ffff_ffff_ffff;

/// `hex::encode`: the bytes in lower-case hexadecimal, two digits for each
/// byte.
#[verifier::external_body]
fn hex_encode(data: &[u8]) -> (r: String)
    ensures
        r@ == hex_of(data@),
{
    hex::encode(data)
}

/// The digest context of the `ring` crate. Nothing inside it is visible
/// here: what it has taken in is spoken of through `absorbed`.
#[verifier::external_type_specification]
#[verifier::external_body]
pub struct ExContext(Context);

/// The bytes that a digest context has taken in, in the order in which it
/// took them.
pub uninterp spec fn absorbed(context: Context) -> Seq<u8>;

/// Whether the context was made for SHA-256.
pub uninterp spec fn for_sha256(context: Context) -> bool;

/// `ring::digest::Context::new` with SHA-256: a context that has taken
/// nothing in.
#[verifier::external_body]
fn sha256_begin() -> (context: Context)
    ensures
        for_sha256(context),
        absorbed(context) == Seq::<u8>::empty(),
{
    Context::new(&ring::digest::SHA256)
}

/// `ring::digest::Context::update`: the context takes the bytes in, behind
/// those that it has taken already.
#[verifier::external_body]
fn sha256_update(context: &mut Context, data: &[u8])
    ensures
        for_sha256(*final(context)) == for_sha256(*old(context)),
        absorbed(*final(context)) == absorbed(*old(context)) + data@,
{
    context.update(data)
}

/// `ring::digest::Context::finish`: the digest of all the bytes that the
/// context has taken in, as the one-step `digest` function would give it.
/// The function gives up where the length of the input in bits does not
/// fit in 64 bits, so that input is left out.
#[verifier::external_body]
fn sha256_finish(context: Context) -> (r: Vec<u8>)
    requires
        for_sha256(context),
        absorbed(context).len() <= 0x1fff_ffff_ffff_ffff,
    ensures
        r@ == sha256_digest(absorbed(context)),
{
    context.finish().as_ref().to_vec()
}

/// The digest that the manifest declares for a partition.
pub enum Declared {
    Digest(Seq<u8>),
    NoPartition,
    NoDigest,
}

/// The digest that the manifest declares for the first partition of this
/// name.
pub open spec fn declared_digest(manifest: DeltaArchiveManifest, name: Seq<char>) -> Declared {
    let at = position_of(manifest.partition_names(), name);
    if at >= manifest.partitions@.len() {
        Declared::NoPartition
    } else {
        match manifest.partitions@[at].new_partition_info {
            Some(info) => match info.hash {
                Some(h) => Declared::Digest(h@),
                None => Declared::NoDigest,
            },
            None => Declared::NoDigest,
        }
    }
}

/// Looks up the digest that the manifest declares for a partition.
pub fn expected_digest<'a>(manifest: &'a DeltaArchiveManifest, name: &str) -> (r: Result<
    &'a Vec<u8>,
    OtaError,
>)
    ensures
        match declared_digest(*manifest, name@) {
            Declared::Digest(d) => r matches Ok(v) && v@ == d,
            Declared::NoPartition => r matches Err(OtaError::PartitionNotFound(n)) && n@ == name@,
            Declared::NoDigest => r matches Err(OtaError::HashNotFound(n)) && n@ == name@,
        },
{
    let mut i: usize = 0;
    while i < manifest.partitions.len()
        invariant
            i <= manifest.partitions.len(),
            forall|j: int| 0 <= j < i ==> manifest.partition_names()[j] != name@,
        decreases manifest.partitions.len() - i,
    {
        if str_eq(manifest.partitions[i].partition_name.as_str(), name) {
            proof {
                lemma_position_is(manifest.partition_names(), name@, i as int);
            }
            return match &manifest.partitions[i].new_partition_info {
                Some(info) => match &info.hash {
                    Some(h) => Ok(h),
                    None => Err(OtaError::HashNotFound(name.to_owned())),
                },
                None => Err(OtaError::HashNotFound(name.to_owned())),
            };
        }
        i += 1;
    }
    proof {
        lemma_position_is(manifest.partition_names(), name@, i as int);
    }
    Err(OtaError::PartitionNotFound(name.to_owned()))
}

/// Compares the digest of an image with the declared one. The error names
/// the partition and both digests in hexadecimal.
pub fn check_partition_digest(name: &str, expected: &Vec<u8>, digest: &Vec<u8>) -> (r: Result<
    (),
    OtaError,
>)
    ensures
        r is Ok <==> expected@ == digest@,
        r matches Err(e) ==> e matches OtaError::DigestMismatch { name: n, expected: x, actual: a }
            && n@ == name@ && x@ == hex_of(expected@) && a@ == hex_of(digest@),
{
    if bytes_eq(expected, digest) {
        Ok(())
    } else {
        Err(
            OtaError::DigestMismatch {
                name: name.to_owned(),
                expected: hex_encode(expected.as_slice()),
                actual: hex_encode(digest.as_slice()),
            },
        )
    }
}

/// `e` is the error for an image that does not verify: it says that the
/// manifest has no such partition, that it declares no digest, that the
/// image is too long to be hashed, or that the digests differ.
pub open spec fn reports_failure(manifest: DeltaArchiveManifest, name: Seq<char>, image: Seq<u8>, e: OtaError) -> bool {
    match declared_digest(manifest, name) {
        Declared::NoPartition => e matches OtaError::PartitionNotFound(n) && n@ == name,
        Declared::NoDigest => e matches OtaError::HashNotFound(n) && n@ == name,
        Declared::Digest(d) => if image.len() > 0x1fff_ffff_ffff_ffff {
            e matches OtaError::ImageTooLarge(n) && n@ == name
        } else {
            e matches OtaError::DigestMismatch { name: n, expected: x, actual: a } && n@ == name
                && x@ == hex_of(d) && a@ == hex_of(sha256_digest(image))
        },
    }
}

/// The image has the digest that the manifest declares for the partition.
pub open spec fn digest_verifies(manifest: DeltaArchiveManifest, name: Seq<char>, image: Seq<u8>) -> bool {
    image.len() <= 0x1fff_ffff_ffff_ffff && declared_digest(manifest, name) == Declared::Digest(
        sha256_digest(image),
    )
}

/// Hashes the image of a partition piece by piece, as it is read.
pub struct PartitionHasher {
    context: Context,
    length: u64,
    too_long: bool,
    fed: Ghost<Seq<u8>>,
}

impl View for PartitionHasher {
    type V = Seq<u8>;

    /// The bytes that were handed to the hasher, in order.
    closed spec fn view(&self) -> Seq<u8> {
        self.fed@
    }
}

impl PartitionHasher {
    #[verifier::type_invariant]
    spec fn well_formed(&self) -> bool {
        &&& for_sha256(self.context)
        &&& !self.too_long ==> absorbed(self.context) == self.fed@ && self.fed@.len()
            == self.length && self.length <= 0x1fff_ffff_ffff_ffff
        &&& self.too_long ==> self.fed@.len() > 0x1fff_ffff_ffff_ffff
    }

    /// A hasher that was handed nothing yet.
    pub fn new() -> (r: Self)
        ensures
            r@ == Seq::<u8>::empty(),
    {
        PartitionHasher {
            context: sha256_begin(),
            length: 0,
            too_long: false,
            fed: Ghost(Seq::empty()),
        }
    }

    /// Hands the next piece of the image to the hasher.
    pub fn update(self, chunk: &[u8]) -> (r: Self)
        ensures
            r@ == self@ + chunk@,
    {
        proof {
            use_type_invariant(&self);
        }
        let ghost fed = self.fed@ + chunk@;
        let length = self.length;
        let mut context = self.context;
        if self.too_long {
            return PartitionHasher { context, length, too_long: true, fed: Ghost(fed) };
        }
        let room: u64 = SHA256_MAX_INPUT - length;
        if chunk.len() as u64 > room {
            PartitionHasher { context, length, too_long: true, fed: Ghost(fed) }
        } else {
            sha256_update(&mut context, chunk);
            PartitionHasher {
                context,
                length: length + chunk.len() as u64,
                too_long: false,
                fed: Ghost(fed),
            }
        }
    }

    /// Ends the hashing and checks that the image has the digest that the
    /// manifest declares for the partition.
    pub fn finish(self, manifest: &DeltaArchiveManifest, name: &str) -> (r: Result<(), OtaError>)
        ensures
            r is Ok <==> digest_verifies(*manifest, name@, self@),
            r matches Err(e) ==> reports_failure(*manifest, name@, self@, e),
    {
        proof {
            use_type_invariant(&self);
        }
        let expected = match expected_digest(manifest, name) {
            Ok(d) => d,
            Err(e) => {
                return Err(e);
            },
        };
        if self.too_long {
            return Err(OtaError::ImageTooLarge(name.to_owned()));
        }
        let digest = sha256_finish(self.context);
        check_partition_digest(name, expected, &digest)
    }
}

/// Checks that the image of a partition has the SHA-256 digest that the
/// manifest declares for it.
pub fn verify_partition_hash(manifest: &DeltaArchiveManifest, name: &str, image: &Vec<u8>) -> (r:
    Result<(), OtaError>)
    ensures
        r is Ok <==> digest_verifies(*manifest, name@, image@),
        r matches Err(e) ==> reports_failure(*manifest, name@, image@, e),
{
    let hasher = PartitionHasher::new().update(image.as_slice());
    assert(hasher@ =~= image@);
    hasher.finish(manifest, name)
}

/// The image of a partition.
#[derive(Debug)]
pub struct PartitionImage {
    pub name: String,
    pub data: Vec<u8>,
}

/// The image has the digest that the manifest declares for its partition.
pub open spec fn image_verifies(manifest: DeltaArchiveManifest, image: PartitionImage) -> bool {
    digest_verifies(manifest, image.name@, image.data@)
}

/// Checks the digest of each image against the manifest, and reports the
/// first image that fails.
pub fn verify_partition_hashes(manifest: &DeltaArchiveManifest, images: &Vec<PartitionImage>) -> (r:
    Result<(), OtaError>)
    ensures
        r is Ok <==> forall|i: int|
            0 <= i < images@.len() ==> image_verifies(*manifest, #[trigger] images@[i]),
        r matches Err(e) ==> exists|i: int|
            0 <= i < images@.len() && !image_verifies(*manifest, #[trigger] images@[i])
                && reports_failure(*manifest, images@[i].name@, images@[i].data@, e)
                && forall|j: int| 0 <= j < i ==> image_verifies(*manifest, #[trigger] images@[j]),
{
    let mut i: usize = 0;
    while i < images.len()
        invariant
            i <= images.len(),
            forall|j: int| 0 <= j < i ==> image_verifies(*manifest, #[trigger] images@[j]),
        decreases images.len() - i,
    {
        match verify_partition_hash(manifest, images[i].name.as_str(), &images[i].data) {
            Ok(()) => {},
            Err(e) => {
                assert(!image_verifies(*manifest, images@[i as int]));
                return Err(e);
            },
        }
        i += 1;
    }
    Ok(())
}

/// How far the signature of a package is trusted.
#[derive(Clone, Copy, Debug, PartialEq, Eq, Structural)]
pub enum Trust {
    /// The package is signed with the certificate that the caller trusts.
    Trusted,
    /// The signature is valid, but the caller named no certificate.
    Unknown,
}

/// Compares the certificate in the signature with the one in the archive
/// and, where the caller trusts a certificate, with that one. The
/// certificates are compared in their encoded form.
pub fn check_certificates(embedded: &Vec<u8>, archived: &Vec<u8>, trusted: Option<&Vec<u8>>) -> (r:
    Result<Trust, OtaError>)
    ensures
        r == (if embedded@ != archived@ {
            Err::<Trust, OtaError>(OtaError::EmbeddedCertificateMismatch)
        } else {
            match trusted {
                Some(t) => if embedded@ != t@ {
                    Err(OtaError::UntrustedCertificate)
                } else {
                    Ok(Trust::Trusted)
                },
                None => Ok(Trust::Unknown),
            }
        }),
{
    if !bytes_eq(embedded, archived) {
        Err(OtaError::EmbeddedCertificateMismatch)
    } else {
        match trusted {
            Some(t) => {
                if !bytes_eq(embedded, t) {
                    Err(OtaError::UntrustedCertificate)
                } else {
                    Ok(Trust::Trusted)
                }
            },
            None => Ok(Trust::Unknown),
        }
    }
}

/// An entry of the property files of the metadata: a name with the place
/// of its data in the archive.
#[derive(Debug)]
pub struct PropertyFile {
    pub name: String,
    pub offset: u64,
    pub size: u64,
}

/// The names of a list of property files.
pub open spec fn property_names(files: Seq<PropertyFile>) -> Seq<Seq<char>> {
    Seq::new(files.len(), |i: int| files[i].name@)
}

/// Finds the place of the payload among the property files.
pub fn find_payload_entry(files: &Vec<PropertyFile>) -> (r: Result<(u64, u64), OtaError>)
    ensures
        ({
            let at = position_of(property_names(files@), PATH_PAYLOAD@);
            if at < files@.len() {
                r == Ok::<(u64, u64), OtaError>((files@[at].offset, files@[at].size))
            } else {
                r == Err::<(u64, u64), OtaError>(OtaError::MissingPropertyFile)
            }
        }),
{
    let mut i: usize = 0;
    while i < files.len()
        invariant
            i <= files.len(),
            forall|j: int| 0 <= j < i ==> property_names(files@)[j] != PATH_PAYLOAD@,
        decreases files.len() - i,
    {
        if str_eq(files[i].name.as_str(), PATH_PAYLOAD) {
            proof {
                lemma_position_is(property_names(files@), PATH_PAYLOAD@, i as int);
            }
            return Ok((files[i].offset, files[i].size));
        }
        i += 1;
    }
    proof {
        lemma_position_is(property_names(files@), PATH_PAYLOAD@, i as int);
    }
    Err(OtaError::MissingPropertyFile)
}

/// A name that can stand for a file in a directory: it is not empty, is
/// neither `.` nor `..`, and holds no `/`.
pub open spec fn is_safe_name(name: Seq<char>) -> bool {
    name.len() > 0 && name != seq!['.'] && name != seq!['.', '.'] && !name.contains('/')
}

/// Whether a partition name can be used as a file name.
pub fn is_safe_partition_name(name: &str) -> (r: bool)
    ensures
        r == is_safe_name(name@),
{
    let chars = to_chars(name);
    if chars.len() == 0 {
        return false;
    }
    if chars.len() == 1 && chars[0] == '.' {
        assert(name@ =~= seq!['.']);
        return false;
    }
    if chars.len() == 2 && chars[0] == '.' && chars[1] == '.' {
        assert(name@ =~= seq!['.', '.']);
        return false;
    }
    let mut i: usize = 0;
    while i < chars.len()
        invariant
            i <= chars.len(),
            chars@ == name@,
            forall|j: int| 0 <= j < i ==> chars@[j] != '/',
        decreases chars.len() - i,
    {
        if chars[i] == '/' {
            return false;
        }
        i += 1;
    }
    proof {
        assert(name@ != seq!['.']) by {
            if name@ == seq!['.'] {
                assert(name@.len() == 1 && name@[0] == '.');
            }
        }
        assert(name@ != seq!['.', '.']) by {
            if name@ == seq!['.', '.'] {
                assert(name@.len() == 2 && name@[0] == '.' && name@[1] == '.');
            }
        }
    }
    true
}

/// Checks that each image can be extracted under its name, and names the
/// first that cannot.
pub fn check_partition_names(images: &Vec<String>) -> (r: Result<(), OtaError>)
    ensures
        r is Ok <==> forall|i: int| 0 <= i < images@.len() ==> is_safe_name(#[trigger] images@[i]@),
        r matches Err(e) ==> e matches OtaError::UnsafePartitionName(n) && exists|i: int|
            0 <= i < images@.len() && (#[trigger] images@[i])@ == n@ && !is_safe_name(n@)
                && forall|j: int| 0 <= j < i ==> is_safe_name(#[trigger] images@[j]@),
{
    let mut i: usize = 0;
    while i < images.len()
        invariant
            i <= images.len(),
            forall|j: int| 0 <= j < i ==> is_safe_name(#[trigger] images@[j]@),
        decreases images.len() - i,
    {
        if !is_safe_partition_name(images[i].as_str()) {
            return Err(OtaError::UnsafePartitionName(images[i].clone()));
        }
        i += 1;
    }
    Ok(())
}

/// Which images an extraction is asked for.
#[derive(Clone, Copy, Debug, PartialEq, Eq, Structural)]
pub enum Selection {
    /// Every partition of the payload.
    All,
    /// The boot images.
    BootOnly,
    /// The boot images, the system image and the vbmeta images.
    Required,
}

/// Whether the selection takes a partition of this name.
pub open spec fn selects(selection: Selection, name: Seq<char>) -> bool {
    match selection {
        Selection::All => true,
        Selection::BootOnly => is_boot_name(name),
        Selection::Required => is_required_name(name),
    }
}

/// A partition of the list that the selection takes.
pub open spec fn is_selected(names: Seq<Seq<char>>, selection: Selection, name: Seq<char>) -> bool {
    names.contains(name) && selects(selection, name)
}

/// The selection that the options of an extraction ask for.
pub fn selection_for(all: bool, boot_only: bool) -> (r: Selection)
    ensures
        r == if all {
            Selection::All
        } else if boot_only {
            Selection::BootOnly
        } else {
            Selection::Required
        },
{
    if all {
        Selection::All
    } else if boot_only {
        Selection::BootOnly
    } else {
        Selection::Required
    }
}

/// The names of the images to extract, in ascending order, each of them
/// once.
pub fn select_images(manifest: &DeltaArchiveManifest, selection: Selection) -> (r: Vec<String>)
    ensures
        strictly_sorted(names_view(r@)),
        forall|n: Seq<char>|
            names_view(r@).contains(n) <==> is_selected(manifest.partition_names(), selection, n),
{
    let ghost all = manifest.partition_names();
    let mut picked: Vec<String> = Vec::new();
    let mut i: usize = 0;
    while i < manifest.partitions.len()
        invariant
            i <= manifest.partitions.len(),
            all == manifest.partition_names(),
            forall|n: Seq<char>|
                names_view(picked@).contains(n) <==> is_selected(all.take(i as int), selection, n),
        decreases manifest.partitions.len() - i,
    {
        let name = manifest.partitions[i].partition_name.as_str();
        let ghost prior = names_view(picked@);
        proof {
            crate::text::lemma_take_next(all, i as int);
            crate::text::lemma_contains_push(prior, name@);
            assert(all[i as int] == name@);
        }
        let take = match selection {
            Selection::All => true,
            Selection::BootOnly => RequiredImages::is_boot(name),
            Selection::Required => RequiredImages::is_boot(name) || RequiredImages::is_system(name)
                || RequiredImages::is_vbmeta(name),
        };
        if take {
            picked.push(manifest.partitions[i].partition_name.clone());
            assert(names_view(picked@) =~= prior.push(name@));
        }
        proof {
            let now = names_view(picked@);
            assert forall|n: Seq<char>|
                now.contains(n) <==> is_selected(all.take(i + 1), selection, n) by {
                assert(prior.contains(n) <==> is_selected(all.take(i as int), selection, n));
                assert(all.take(i + 1).contains(n) <==> all.take(i as int).contains(n) || n
                    == name@);
                if take {
                    assert(now.contains(n) <==> prior.contains(n) || n == name@);
                } else {
                    assert(now == prior);
                }
            }
        }
        i += 1;
    }
    proof {
        assert(all.take(i as int) =~= all);
    }
    sorted_unique(&picked)
}

/// The certificates that the ramdisk of a boot image trusts.
#[derive(Debug)]
pub struct BootCertificates {
    pub name: String,
    pub certificates: Vec<Vec<u8>>,
}

/// The list holds the certificate.
pub open spec fn holds_certificate(list: Seq<Vec<u8>>, certificate: Seq<u8>) -> bool {
    exists|k: int| 0 <= k < list.len() && (#[trigger] list[k])@ == certificate
}

fn has_certificate(list: &Vec<Vec<u8>>, certificate: &Vec<u8>) -> (r: bool)
    ensures
        r == holds_certificate(list@, certificate@),
{
    let mut k: usize = 0;
    while k < list.len()
        invariant
            k <= list.len(),
            forall|j: int| 0 <= j < k ==> (#[trigger] list@[j])@ != certificate@,
        decreases list.len() - k,
    {
        if bytes_eq(&list[k], certificate) {
            return true;
        }
        k += 1;
    }
    false
}

/// Checks that some boot image carries a list of trusted certificates, and
/// that each such list holds the certificate of the package.
pub fn check_boot_certificates(targets: &Vec<BootCertificates>, certificate: &Vec<u8>) -> (r:
    Result<(), OtaError>)
    ensures
        r is Ok <==> targets@.len() > 0 && forall|i: int|
            0 <= i < targets@.len() ==> holds_certificate(
                (#[trigger] targets@[i]).certificates@,
                certificate@,
            ),
        r matches Err(e) ==> if targets@.len() == 0 {
            e is NoOtaCertificates
        } else {
            e matches OtaError::CertificateNotInBootImage(n) && exists|i: int|
                0 <= i < targets@.len() && (#[trigger] targets@[i]).name@ == n@
                    && !holds_certificate(targets@[i].certificates@, certificate@) && forall|
                    j: int,
                |
                    0 <= j < i ==> holds_certificate(
                        (#[trigger] targets@[j]).certificates@,
                        certificate@,
                    )
        },
{
    if targets.len() == 0 {
        return Err(OtaError::NoOtaCertificates);
    }
    let mut i: usize = 0;
    while i < targets.len()
        invariant
            i <= targets.len(),
            forall|j: int|
                0 <= j < i ==> holds_certificate(
                    (#[trigger] targets@[j]).certificates@,
                    certificate@,
                ),
        decreases targets.len() - i,
    {
        if !has_certificate(&targets[i].certificates, certificate) {
            return Err(OtaError::CertificateNotInBootImage(targets[i].name.clone()));
        }
        i += 1;
    }
    Ok(())
}

} // verus!
