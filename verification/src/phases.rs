//! The phases of a patch run, as far as they decide what happens to the
//! images of the pool.

use vstd::prelude::*;
use vstd::string::*;
use crate::error::OtaError;
use crate::images::{is_boot_name, is_system_name, RequiredImages};
use crate::manifest::DeltaArchiveManifest;
use crate::payload::ByteRange;
use crate::pool::{
    advanced, check_external_images, open_input_files, opened, replaced, ImagePool,
    InputFileState, Prune,
};
use crate::text::names_view;

verus! {

/// What a long operation does with the cancel flag that it has just read:
/// it goes on where the flag is clear, and stops with the cancel error the
/// first time that it sees the flag set.
pub fn check_cancel(cancel_requested: bool) -> (r: Result<(), OtaError>)
    ensures
        r is Ok <==> !cancel_requested,
        r matches Err(e) ==> e is Cancelled,
{
    if cancel_requested {
        Err(OtaError::Cancelled)
    } else {
        Ok(())
    }
}

/// Only a payload that overwrites its partitions in full can be patched or
/// extracted: one that depends on an earlier release is refused.
pub fn require_full_ota(is_full_ota: bool) -> (r: Result<(), OtaError>)
    ensures
        r is Ok <==> is_full_ota,
        r matches Err(e) ==> e is DeltaPayload,
{
    if is_full_ota {
        Ok(())
    } else {
        Err(OtaError::DeltaPayload)
    }
}

/// Begins the patching of a payload: the payload must be a full one, and
/// each replacement must stand for one of its partitions. The pool then
/// holds the boot images, the system image, the vbmeta images and the
/// replaced images.
pub fn begin_patch(manifest: &DeltaArchiveManifest, external_images: &Vec<String>, is_full_ota: bool) -> (r:
    Result<(RequiredImages, ImagePool), OtaError>)
    ensures
        r is Ok <==> is_full_ota && forall|i: int|
            0 <= i < external_images@.len() ==> manifest.partition_names().contains(
                #[trigger] external_images@[i]@,
            ),
        r matches Ok(opening) ==> opening.0@ == crate::images::required_names(
            manifest.partition_names(),
        ) && opening.1@ == opened(opening.0@, names_view(external_images@)),
        r matches Err(e) ==> if !is_full_ota {
            e is DeltaPayload
        } else {
            e matches OtaError::ReplaceMissingPartition(name) && exists|i: int|
                0 <= i < external_images@.len() && external_images@[i]@ == name@
                    && !manifest.partition_names().contains(name@) && forall|j: int|
                    0 <= j < i ==> manifest.partition_names().contains(
                        #[trigger] external_images@[j]@,
                    )
        },
{
    match require_full_ota(is_full_ota) {
        Ok(()) => {},
        Err(e) => {
            return Err(e);
        },
    }
    match check_external_images(manifest, external_images) {
        Ok(()) => {},
        Err(e) => {
            return Err(e);
        },
    }
    let required = RequiredImages::new(manifest);
    let pool = open_input_files(&required, external_images);
    Ok((required, pool))
}

/// A patcher of boot images.
#[derive(Clone, Copy, Debug, PartialEq, Eq, Structural)]
pub enum BootPatcher {
    /// Puts the certificate of the package into the list of trusted
    /// certificates.
    OtaCertificate,
    /// Adds root access.
    Root,
}

/// The patchers that are applied to the boot images: always the one for
/// the certificate, and after it the one for root access where the caller
/// asked for it.
pub fn boot_patchers(with_root: bool) -> (r: Vec<BootPatcher>)
    ensures
        r@ == if with_root {
            seq![BootPatcher::OtaCertificate, BootPatcher::Root]
        } else {
            seq![BootPatcher::OtaCertificate]
        },
{
    let mut out: Vec<BootPatcher> = Vec::new();
    out.push(BootPatcher::OtaCertificate);
    if with_root {
        out.push(BootPatcher::Root);
    }
    proof {
        if with_root {
            assert(out@ =~= seq![BootPatcher::OtaCertificate, BootPatcher::Root]);
        } else {
            assert(out@ =~= seq![BootPatcher::OtaCertificate]);
        }
    }
    out
}

/// Ends the boot phase. The boot images that the patchers wrote anew are
/// marked as modified, and the boot images that were only extracted are
/// dropped: nothing of them goes into the new payload.
pub fn patch_boot_images(input_files: &mut ImagePool, written: &Vec<String>)
    ensures
        forall|n: Seq<char>| #[trigger]
            final(input_files)@.dom().contains(n) <==> old(input_files)@.dom().contains(n) && !(
            is_boot_name(n) && replaced(old(input_files)@, names_view(written@))[n]
                == InputFileState::Extracted),
        forall|n: Seq<char>| #[trigger]
            final(input_files)@.dom().contains(n) ==> final(input_files)@[n] == replaced(
                old(input_files)@,
                names_view(written@),
            )[n],
        forall|n: Seq<char>| #[trigger]
            final(input_files)@.dom().contains(n) && is_boot_name(n) ==> final(input_files)@[n]
                != InputFileState::Extracted,
{
    let ghost wv = names_view(written@);
    let ghost start = input_files@;
    let mut i: usize = 0;
    proof {
        assert(wv.take(0) =~= Seq::empty());
    }
    while i < written.len()
        invariant
            i <= written.len(),
            wv == names_view(written@),
            input_files@ == replaced(start, wv.take(i as int)),
            input_files@.dom() == start.dom(),
        decreases written.len() - i,
    {
        proof {
            assert(wv.take(i + 1).drop_last() =~= wv.take(i as int));
            assert(wv.take(i + 1).last() == written@[i as int]@);
        }
        let ghost before = input_files@;
        let _ = input_files.replace(written[i].as_str());
        proof {
            assert(input_files@.dom() =~= before.dom());
        }
        i += 1;
    }
    proof {
        assert(wv.take(i as int) =~= wv);
    }
    input_files.prune(Prune::ExtractedBoot);
}

/// The first system partition among the names.
pub open spec fn first_system(names: Seq<Seq<char>>) -> Option<Seq<char>> {
    let found = names.filter(|n: Seq<char>| is_system_name(n));
    if found.len() > 0 {
        Some(found[0])
    } else {
        None
    }
}

/// The system partition that is patched.
pub fn system_target(required_images: &RequiredImages) -> (r: Result<String, OtaError>)
    ensures
        match first_system(required_images@) {
            Some(n) => r matches Ok(t) && t@ == n,
            None => r matches Err(e) && e is NoSystemPartition,
        },
{
    let found = required_images.iter_system();
    if found.len() > 0 {
        assert(names_view(found@)[0] == found@[0]@);
        Ok(found[0].clone())
    } else {
        Err(OtaError::NoSystemPartition)
    }
}

/// Whether the system image has to be copied to a temporary file before it
/// is patched: a file that the user supplied is never written to.
pub fn system_needs_copy(input_files: &ImagePool, target: &str) -> (r: bool)
    ensures
        r == (input_files.state_of(target@) == Some(InputFileState::External)),
{
    match input_files.state(target) {
        Some(state) => state == InputFileState::External,
        None => false,
    }
}

/// Ends the system phase. The system image was patched in a temporary
/// file: it counts as extracted where it came from the user, and then as
/// modified. The bytes that were changed are those of the certificate list
/// and, after them, those of every other rewrite.
pub fn patch_system_image(
    required_images: &RequiredImages,
    input_files: &mut ImagePool,
    otacerts_ranges: Vec<ByteRange>,
    other_ranges: Vec<ByteRange>,
) -> (r: Result<(String, Vec<ByteRange>), OtaError>)
    ensures
        match first_system(required_images@) {
            Some(n) => (r matches Ok(done) && done.0@ == n && done.1@ == otacerts_ranges@
                + other_ranges@) && final(input_files)@ == if old(input_files)@.dom().contains(n) {
                old(input_files)@.insert(n, InputFileState::Modified)
            } else {
                old(input_files)@
            },
            None => (r matches Err(e) && e is NoSystemPartition) && final(input_files)@ == old(
                input_files,
            )@,
        },
        advanced(old(input_files)@, final(input_files)@),
{
    let target = match system_target(required_images) {
        Ok(t) => t,
        Err(e) => {
            return Err(e);
        },
    };
    let ghost start = input_files@;
    let _ = input_files.extract(target.as_str());
    let ghost middle = input_files@;
    let _ = input_files.modify(target.as_str());
    proof {
        if start.dom().contains(target@) {
            assert(input_files@ =~= start.insert(target@, InputFileState::Modified));
            assert forall|n: Seq<char>| #[trigger] input_files@.dom().contains(n) implies start.dom().contains(
                n,
            ) && start[n].reaches(input_files@[n]) by {
                if n == target@ {
                    if start[n] == InputFileState::External {
                        assert(start[n].step(InputFileState::Extracted)
                            && InputFileState::Extracted.step(InputFileState::Modified));
                    }
                }
            }
        } else {
            assert(input_files@ =~= start);
        }
    }
    let mut ranges = otacerts_ranges;
    let mut rest = other_ranges;
    ranges.append(&mut rest);
    Ok((target, ranges))
}

/// Ends the phase of the vbmeta images: every image that is still a plain
/// extract of the payload is dropped, so that only changed images are
/// packed anew.
pub fn finish_avb_phase(input_files: &mut ImagePool)
    ensures
        forall|n: Seq<char>| #[trigger]
            final(input_files)@.dom().contains(n) <==> old(input_files)@.dom().contains(n) && old(
                input_files,
            )@[n] != InputFileState::Extracted,
        forall|n: Seq<char>| #[trigger]
            final(input_files)@.dom().contains(n) ==> final(input_files)@[n] == old(
                input_files,
            )@[n] && final(input_files)@[n] != InputFileState::Extracted,
{
    input_files.prune(Prune::Extracted);
}

} // verus!
