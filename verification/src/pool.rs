//! The image pool: which partition images a patch run holds, and where
//! each of them came from.
//!
//! The pool records names and provenance only. The backing files belong to
//! the caller, who keeps one per entry of the pool.

use vstd::prelude::*;
use vstd::string::*;
use crate::error::OtaError;
use crate::images::{is_boot_name, RequiredImages};
use crate::manifest::DeltaArchiveManifest;
use crate::text::{distinct, lemma_contains_push, lemma_take_next, names_view, str_eq};

verus! {

/// Where the image of a partition came from.
#[derive(Clone, Copy, Debug, PartialEq, Eq, Structural)]
pub enum InputFileState {
    /// A file that the user supplied: it must not be written to.
    External,
    /// A temporary copy, of the payload's image or of an external file.
    Extracted,
    /// A temporary file holding a patched image.
    Modified,
}

impl InputFileState {
    /// The single steps that the provenance of an image can take.
    pub open spec fn step(self, next: InputFileState) -> bool {
        ||| self == InputFileState::External && next == InputFileState::Extracted
        ||| self == InputFileState::Extracted && next == InputFileState::Modified
    }

    /// `next` is reached from `self` by steps: an external image reaches
    /// `Modified` only through `Extracted`, and nothing goes back.
    pub open spec fn reaches(self, next: InputFileState) -> bool {
        ||| self == next
        ||| self.step(next)
        ||| exists|mid: InputFileState| self.step(mid) && mid.step(next)
    }
}

/// Between two states of a pool no image was added, and the provenance of
/// each image stayed as it was or moved on: from external to extracted,
/// from extracted to modified, never back.
pub open spec fn advanced(before: Map<Seq<char>, InputFileState>, after: Map<
    Seq<char>,
    InputFileState,
>) -> bool {
    forall|n: Seq<char>| #[trigger]
        after.dom().contains(n) ==> before.dom().contains(n) && before[n].reaches(after[n])
}

/// The pool after the images of these names were replaced by patched ones,
/// one after the other. A name that the pool does not hold changes nothing.
pub open spec fn replaced(pool: Map<Seq<char>, InputFileState>, names: Seq<Seq<char>>) -> Map<
    Seq<char>,
    InputFileState,
>
    decreases names.len(),
{
    if names.len() == 0 {
        pool
    } else {
        let p = replaced(pool, names.drop_last());
        if p.dom().contains(names.last()) {
            p.insert(names.last(), InputFileState::Modified)
        } else {
            p
        }
    }
}

/// After images were replaced the pool holds the names it held; the
/// replaced ones are modified and the others are as they were.
pub proof fn lemma_replaced(pool: Map<Seq<char>, InputFileState>, names: Seq<Seq<char>>)
    ensures
        replaced(pool, names).dom() == pool.dom(),
        forall|n: Seq<char>| #[trigger]
            pool.dom().contains(n) ==> replaced(pool, names)[n] == if names.contains(n) {
                InputFileState::Modified
            } else {
                pool[n]
            },
    decreases names.len(),
{
    if names.len() > 0 {
        let init = names.drop_last();
        lemma_replaced(pool, init);
        assert(replaced(pool, names).dom() =~= pool.dom());
        assert forall|n: Seq<char>| #[trigger] pool.dom().contains(n) implies replaced(
            pool,
            names,
        )[n] == if names.contains(n) {
            InputFileState::Modified
        } else {
            pool[n]
        } by {
            if init.contains(n) {
                let k = choose|k: int| 0 <= k < init.len() && init[k] == n;
                assert(names[k] == n);
            }
            if names.contains(n) && n != names.last() {
                let k = choose|k: int| 0 <= k < names.len() && names[k] == n;
                assert(init[k] == n);
            }
            assert(names[names.len() - 1] == names.last());
        }
    } else {
        assert(replaced(pool, names).dom() =~= pool.dom());
    }
}

/// Which entries `ImagePool::prune` drops.
#[derive(Clone, Copy, Debug, PartialEq, Eq, Structural)]
pub enum Prune {
    /// Boot images that were extracted and not patched.
    ExtractedBoot,
    /// Every image that was extracted and not patched.
    Extracted,
}

impl Prune {
    /// Whether the rule drops an entry of this name and provenance.
    pub open spec fn drops(self, name: Seq<char>, state: InputFileState) -> bool {
        match self {
            Prune::ExtractedBoot => state == InputFileState::Extracted && is_boot_name(name),
            Prune::Extracted => state == InputFileState::Extracted,
        }
    }
}

/// One image of the pool.
#[derive(Debug)]
pub struct InputFile {
    pub name: String,
    pub state: InputFileState,
}

/// The names of a list of pool entries.
pub open spec fn entry_names(files: Seq<InputFile>) -> Seq<Seq<char>> {
    Seq::new(files.len(), |i: int| files[i].name@)
}

/// The mapping from name to provenance that a list of entries stands for.
pub open spec fn entries_map(files: Seq<InputFile>) -> Map<Seq<char>, InputFileState> {
    Map::new(
        |n: Seq<char>| entry_names(files).contains(n),
        |n: Seq<char>| files[entry_names(files).index_of(n)].state,
    )
}

/// What `open_input_files` yields: one entry for each required and each
/// external name, external where the user gave a file for it.
pub open spec fn opened(required: Seq<Seq<char>>, external: Seq<Seq<char>>) -> Map<
    Seq<char>,
    InputFileState,
> {
    Map::new(
        |n: Seq<char>| required.contains(n) || external.contains(n),
        |n: Seq<char>|
            if external.contains(n) {
                InputFileState::External
            } else {
                InputFileState::Extracted
            },
    )
}

/// The images of one patch run, by partition name.
pub struct ImagePool {
    files: Vec<InputFile>,
}

impl View for ImagePool {
    type V = Map<Seq<char>, InputFileState>;

    closed spec fn view(&self) -> Map<Seq<char>, InputFileState> {
        entries_map(self.files@)
    }
}

proof fn lemma_entry_lookup(files: Seq<InputFile>, i: int)
    requires
        distinct(entry_names(files)),
        0 <= i < files.len(),
    ensures
        entries_map(files).dom().contains(files[i].name@),
        entries_map(files)[files[i].name@] == files[i].state,
        entry_names(files).index_of(files[i].name@) == i,
{
    let names = entry_names(files);
    assert(names[i] == files[i].name@);
    let k = names.index_of(files[i].name@);
    assert(0 <= k < names.len() && names[k] == files[i].name@);
    if k < i {
        assert(names[k] != names[i]);
    } else if i < k {
        assert(names[i] != names[k]);
    }
}

proof fn lemma_entry_absent(files: Seq<InputFile>, name: Seq<char>)
    requires
        forall|i: int| 0 <= i < files.len() ==> files[i].name@ != name,
    ensures
        !entries_map(files).dom().contains(name),
{
    let names = entry_names(files);
    if names.contains(name) {
        let k = choose|k: int| 0 <= k < names.len() && names[k] == name;
        assert(files[k].name@ == name);
    }
}

impl ImagePool {
    #[verifier::type_invariant]
    spec fn well_formed(&self) -> bool {
        distinct(entry_names(self.files@))
    }

    /// The provenance of `name`, where the pool holds it.
    pub open spec fn state_of(&self, name: Seq<char>) -> Option<InputFileState> {
        if self@.dom().contains(name) {
            Some(self@[name])
        } else {
            None
        }
    }

    /// The pool is finite.
    pub proof fn lemma_finite(&self)
        ensures
            self@.dom().finite(),
    {
        let names = entry_names(self.files@);
        assert(self@.dom() =~= names.to_set());
        vstd::seq_lib::seq_to_set_is_finite(names);
    }

    fn position(&self, name: &str) -> (r: Option<usize>)
        ensures
            match r {
                Some(i) => i < self.files@.len() && self.files@[i as int].name@ == name@
                    && self@.dom().contains(name@) && self@[name@] == self.files@[i as int].state,
                None => !self@.dom().contains(name@),
            },
    {
        proof {
            use_type_invariant(self);
        }
        let mut i: usize = 0;
        while i < self.files.len()
            invariant
                i <= self.files.len(),
                distinct(entry_names(self.files@)),
                forall|j: int| 0 <= j < i ==> self.files@[j].name@ != name@,
            decreases self.files.len() - i,
        {
            if str_eq(self.files[i].name.as_str(), name) {
                proof {
                    lemma_entry_lookup(self.files@, i as int);
                }
                return Some(i);
            }
            i += 1;
        }
        proof {
            lemma_entry_absent(self.files@, name@);
        }
        None
    }

    /// Whether the pool holds an image of this name.
    pub fn contains(&self, name: &str) -> (r: bool)
        ensures
            r == self@.dom().contains(name@),
    {
        self.position(name).is_some()
    }

    /// The provenance of the image of this name.
    pub fn state(&self, name: &str) -> (r: Option<InputFileState>)
        ensures
            r == self.state_of(name@),
    {
        match self.position(name) {
            Some(i) => Some(self.files[i].state),
            None => None,
        }
    }

    /// The number of images in the pool.
    pub fn len(&self) -> (r: usize)
        ensures
            self@.dom().finite(),
            r == self@.dom().len(),
    {
        proof {
            use_type_invariant(self);
            let names = entry_names(self.files@);
            assert(self@.dom() =~= names.to_set());
            names.unique_seq_to_set();
            self.lemma_finite();
        }
        self.files.len()
    }

    /// The names of the images, each of them once.
    pub fn names(&self) -> (r: Vec<String>)
        ensures
            distinct(names_view(r@)),
            forall|n: Seq<char>| names_view(r@).contains(n) <==> self@.dom().contains(n),
    {
        proof {
            use_type_invariant(self);
        }
        let mut out: Vec<String> = Vec::new();
        let mut i: usize = 0;
        while i < self.files.len()
            invariant
                i <= self.files.len(),
                names_view(out@) == entry_names(self.files@).take(i as int),
            decreases self.files.len() - i,
        {
            let ghost kept = names_view(out@);
            out.push(self.files[i].name.clone());
            assert(names_view(out@) =~= kept.push(self.files@[i as int].name@));
            assert(entry_names(self.files@).take(i + 1) =~= entry_names(self.files@).take(
                i as int,
            ).push(self.files@[i as int].name@));
            i += 1;
        }
        assert(entry_names(self.files@).take(i as int) =~= entry_names(self.files@));
        out
    }

    fn set_state(&mut self, i: usize, state: InputFileState)
        requires
            i < old(self).files@.len(),
        ensures
            final(self)@ == old(self)@.insert(old(self).files@[i as int].name@, state),
            final(self).files@.len() == old(self).files@.len(),
    {
        proof {
            use_type_invariant(&*self);
        }
        let ghost before = self.files@;
        let name = self.files[i].name.clone();
        let ghost key = name@;
        let mut files: Vec<InputFile> = Vec::new();
        std::mem::swap(&mut files, &mut self.files);
        files.set(i, InputFile { name, state });
        proof {
            let after = files@;
            assert(entry_names(after) =~= entry_names(before));
            assert forall|n: Seq<char>| #[trigger]
                entries_map(after).dom().contains(n) implies entries_map(after)[n]
                == entries_map(before).insert(key, state)[n] by {
                let k = entry_names(after).index_of(n);
                assert(0 <= k < after.len() && entry_names(after)[k] == n);
                lemma_entry_lookup(before, k);
                lemma_entry_lookup(before, i as int);
            }
            lemma_entry_lookup(before, i as int);
            assert(entries_map(after) =~= entries_map(before).insert(key, state));
        }
        self.files = files;
    }

    /// Turns an external image into an extracted one, once the caller has
    /// copied it to a temporary file. Says whether the image was external.
    pub fn extract(&mut self, name: &str) -> (done: bool)
        ensures
            done == (old(self).state_of(name@) == Some(InputFileState::External)),
            final(self)@ == if done {
                old(self)@.insert(name@, InputFileState::Extracted)
            } else {
                old(self)@
            },
            advanced(old(self)@, final(self)@),
    {
        match self.position(name) {
            Some(i) => {
                if self.files[i].state == InputFileState::External {
                    self.set_state(i, InputFileState::Extracted);
                    true
                } else {
                    false
                }
            },
            None => false,
        }
    }

    /// Records that the image of `name` was patched in its own temporary
    /// file. An external image is left as it is: it has to be extracted
    /// first. Says whether the image is now marked as modified.
    pub fn modify(&mut self, name: &str) -> (done: bool)
        ensures
            done == (old(self).state_of(name@) == Some(InputFileState::Extracted) || old(
                self,
            ).state_of(name@) == Some(InputFileState::Modified)),
            final(self)@ == if done {
                old(self)@.insert(name@, InputFileState::Modified)
            } else {
                old(self)@
            },
            advanced(old(self)@, final(self)@),
    {
        match self.position(name) {
            Some(i) => {
                if self.files[i].state == InputFileState::External {
                    false
                } else {
                    self.set_state(i, InputFileState::Modified);
                    true
                }
            },
            None => false,
        }
    }

    /// Records that a new temporary file, holding a patched image, took the
    /// place of the image of `name`. Says whether the pool holds the name.
    pub fn replace(&mut self, name: &str) -> (done: bool)
        ensures
            done == old(self)@.dom().contains(name@),
            final(self)@ == if done {
                old(self)@.insert(name@, InputFileState::Modified)
            } else {
                old(self)@
            },
            advanced(old(self)@, final(self)@),
    {
        match self.position(name) {
            Some(i) => {
                let ghost was = self@[name@];
                self.set_state(i, InputFileState::Modified);
                proof {
                    if was == InputFileState::External {
                        assert(was.step(InputFileState::Extracted)
                            && InputFileState::Extracted.step(InputFileState::Modified));
                    }
                    assert(was.reaches(InputFileState::Modified));
                }
                true
            },
            None => false,
        }
    }

    /// Drops the entries that `rule` names and keeps the others as they are.
    pub fn prune(&mut self, rule: Prune)
        ensures
            forall|n: Seq<char>| #[trigger]
                final(self)@.dom().contains(n) <==> old(self)@.dom().contains(n) && !rule.drops(
                    n,
                    old(self)@[n],
                ),
            forall|n: Seq<char>| #[trigger]
                final(self)@.dom().contains(n) ==> final(self)@[n] == old(self)@[n],
            advanced(old(self)@, final(self)@),
    {
        proof {
            use_type_invariant(&*self);
        }
        let ghost before = self.files@;
        let mut old_files: Vec<InputFile> = Vec::new();
        std::mem::swap(&mut old_files, &mut self.files);
        let mut kept: Vec<InputFile> = Vec::new();
        let ghost mut origin: Seq<int> = Seq::empty();
        let mut i: usize = 0;
        while i < old_files.len()
            invariant
                i <= old_files.len(),
                old_files@ == before,
                distinct(entry_names(before)),
                origin.len() == kept@.len(),
                forall|k: int|
                    0 <= k < kept@.len() ==> 0 <= #[trigger] origin[k] < i && kept@[k].name@
                        == before[origin[k]].name@ && kept@[k].state == before[origin[k]].state
                        && !rule.drops(before[origin[k]].name@, before[origin[k]].state),
                forall|k: int, l: int| 0 <= k < l < kept@.len() ==> origin[k] < origin[l],
                forall|j: int|
                    0 <= j < i && !rule.drops(before[j].name@, before[j].state) ==> exists|k: int|
                        0 <= k < kept@.len() && #[trigger] origin[k] == j,
            decreases old_files.len() - i,
        {
            let state = old_files[i].state;
            let drop = match rule {
                Prune::ExtractedBoot => state == InputFileState::Extracted
                    && RequiredImages::is_boot(old_files[i].name.as_str()),
                Prune::Extracted => state == InputFileState::Extracted,
            };
            if !drop {
                let ghost prior = origin;
                let ghost prior_len = kept@.len();
                kept.push(InputFile { name: old_files[i].name.clone(), state });
                proof {
                    origin = origin.push(i as int);
                    assert forall|j: int|
                        0 <= j < i + 1 && !rule.drops(
                            before[j].name@,
                            before[j].state,
                        ) implies exists|k: int| 0 <= k < kept@.len() && #[trigger] origin[k]
                        == j by {
                        if j < i {
                            let k = choose|k: int| 0 <= k < prior_len && #[trigger] prior[k] == j;
                            assert(origin[k] == j);
                        } else {
                            assert(origin[prior_len as int] == j);
                        }
                    }
                }
            }
            i += 1;
        }
        proof {
            let after = kept@;
            assert forall|k: int, l: int| 0 <= k < l < after.len() implies entry_names(after)[k]
                != entry_names(after)[l] by {
                assert(origin[k] < origin[l]);
                assert(entry_names(before)[origin[k]] != entry_names(before)[origin[l]]);
            }
            assert forall|n: Seq<char>| #[trigger]
                entries_map(after).dom().contains(n) <==> entries_map(before).dom().contains(n)
                    && !rule.drops(n, entries_map(before)[n]) by {
                if entries_map(after).dom().contains(n) {
                    let k = entry_names(after).index_of(n);
                    assert(0 <= k < after.len() && entry_names(after)[k] == n);
                    lemma_entry_lookup(before, origin[k]);
                }
                if entries_map(before).dom().contains(n) && !rule.drops(n, entries_map(before)[n]) {
                    let j = entry_names(before).index_of(n);
                    assert(0 <= j < before.len() && entry_names(before)[j] == n);
                    lemma_entry_lookup(before, j);
                    let k = choose|k: int| 0 <= k < after.len() && #[trigger] origin[k] == j;
                    assert(entry_names(after)[k] == n);
                }
            }
            assert forall|n: Seq<char>| #[trigger]
                entries_map(after).dom().contains(n) implies entries_map(after)[n] == entries_map(
                before,
            )[n] by {
                let k = entry_names(after).index_of(n);
                assert(0 <= k < after.len() && entry_names(after)[k] == n);
                lemma_entry_lookup(after, k);
                lemma_entry_lookup(before, origin[k]);
            }
        }
        self.files = kept;
    }
}

/// Lists the images of a patch run: one for each required partition and one
/// for each partition with an external replacement. An image with a
/// replacement is external; every other one is to be extracted from the
/// payload.
pub fn open_input_files(required: &RequiredImages, external: &Vec<String>) -> (pool: ImagePool)
    ensures
        pool@ == opened(required@, names_view(external@)),
{
    let ghost ext = names_view(external@);
    let required_names = required.iter();
    let ghost req = names_view(required_names@);
    let mut files: Vec<InputFile> = Vec::new();
    let mut i: usize = 0;
    while i < external.len()
        invariant
            i <= external.len(),
            ext == names_view(external@),
            distinct(entry_names(files@)),
            forall|k: int|
                0 <= k < files@.len() ==> (#[trigger] files@[k]).state == InputFileState::External,
            forall|n: Seq<char>| entry_names(files@).contains(n) <==> ext.take(i as int).contains(n),
        decreases external.len() - i,
    {
        let ghost prior = entry_names(files@);
        proof {
            lemma_take_next(ext, i as int);
            lemma_contains_push(prior, ext[i as int]);
        }
        if !holds_name(&files, external[i].as_str()) {
            files.push(InputFile { name: external[i].clone(), state: InputFileState::External });
            assert(entry_names(files@) =~= prior.push(ext[i as int]));
        }
        proof {
            let now = entry_names(files@);
            assert forall|n: Seq<char>| now.contains(n) <==> ext.take(i + 1).contains(n) by {
                assert(now.contains(n) <==> prior.contains(n) || n == ext[i as int]);
                assert(prior.contains(n) <==> ext.take(i as int).contains(n));
            }
        }
        i += 1;
    }
    let mut j: usize = 0;
    proof {
        assert(ext.take(i as int) =~= ext);
        assert(req.take(0) =~= Seq::empty());
        assert forall|k: int| 0 <= k < files@.len() implies ext.contains(
            #[trigger] files@[k].name@,
        ) by {
            assert(entry_names(files@)[k] == files@[k].name@);
            assert(entry_names(files@).contains(files@[k].name@));
        }
    }
    while j < required_names.len()
        invariant
            j <= required_names.len(),
            req == names_view(required_names@),
            distinct(entry_names(files@)),
            forall|n: Seq<char>|
                entry_names(files@).contains(n) <==> ext.contains(n) || req.take(j as int).contains(
                    n,
                ),
            forall|k: int|
                0 <= k < files@.len() ==> (#[trigger] files@[k]).state == (if ext.contains(
                    files@[k].name@,
                ) {
                    InputFileState::External
                } else {
                    InputFileState::Extracted
                }),
        decreases required_names.len() - j,
    {
        let ghost prior = entry_names(files@);
        let ghost prior_files = files@;
        proof {
            lemma_take_next(req, j as int);
            lemma_contains_push(prior, req[j as int]);
        }
        if !holds_name(&files, required_names[j].as_str()) {
            files.push(
                InputFile { name: required_names[j].clone(), state: InputFileState::Extracted },
            );
            assert(entry_names(files@) =~= prior.push(req[j as int]));
            assert forall|k: int| 0 <= k < files@.len() implies (#[trigger] files@[k]).state == (
            if ext.contains(files@[k].name@) {
                InputFileState::External
            } else {
                InputFileState::Extracted
            }) by {
                if k < prior_files.len() {
                    assert(files@[k] == prior_files[k]);
                }
            }
        }
        proof {
            let now = entry_names(files@);
            assert forall|n: Seq<char>|
                now.contains(n) <==> ext.contains(n) || req.take(j + 1).contains(n) by {
                assert(now.contains(n) <==> prior.contains(n) || n == req[j as int]);
                assert(prior.contains(n) <==> ext.contains(n) || req.take(j as int).contains(n));
            }
        }
        j += 1;
    }
    proof {
        assert(req.take(j as int) =~= req);
        let target = opened(req, ext);
        assert forall|n: Seq<char>| entries_map(files@).dom().contains(n) implies #[trigger]
            entries_map(files@)[n] == target[n] by {
            let k = entry_names(files@).index_of(n);
            assert(0 <= k < files@.len() && entry_names(files@)[k] == n);
            assert(files@[k].name@ == n);
        }
        assert forall|n: Seq<char>|
            entries_map(files@).dom().contains(n) <==> target.dom().contains(n) by {
            assert(entry_names(files@).contains(n) <==> ext.contains(n) || req.contains(n));
        }
        assert(entries_map(files@) =~= target);
    }
    ImagePool { files }
}

fn holds_name(files: &Vec<InputFile>, name: &str) -> (r: bool)
    ensures
        r == entry_names(files@).contains(name@),
{
    let mut i: usize = 0;
    while i < files.len()
        invariant
            i <= files.len(),
            forall|j: int| 0 <= j < i ==> entry_names(files@)[j] != name@,
        decreases files.len() - i,
    {
        if str_eq(files[i].name.as_str(), name) {
            assert(entry_names(files@)[i as int] == name@);
            return true;
        }
        i += 1;
    }
    false
}

/// Checks that each external replacement stands for a partition of the
/// payload, and names the first one that does not.
pub fn check_external_images(manifest: &DeltaArchiveManifest, external: &Vec<String>) -> (r:
    Result<(), OtaError>)
    ensures
        r is Ok <==> forall|i: int|
            0 <= i < external@.len() ==> manifest.partition_names().contains(
                #[trigger] external@[i]@,
            ),
        r matches Err(e) ==> e matches OtaError::ReplaceMissingPartition(name) && exists|i: int|
            0 <= i < external@.len() && external@[i]@ == name@ && !manifest.partition_names().contains(
                name@,
            ) && forall|j: int|
                0 <= j < i ==> manifest.partition_names().contains(#[trigger] external@[j]@),
{
    let mut i: usize = 0;
    while i < external.len()
        invariant
            i <= external.len(),
            forall|j: int|
                0 <= j < i ==> manifest.partition_names().contains(#[trigger] external@[j]@),
        decreases external.len() - i,
    {
        if !has_partition(manifest, external[i].as_str()) {
            return Err(OtaError::ReplaceMissingPartition(external[i].clone()));
        }
        i += 1;
    }
    Ok(())
}

/// Whether the manifest has a partition of this name.
pub fn has_partition(manifest: &DeltaArchiveManifest, name: &str) -> (r: bool)
    ensures
        r == manifest.partition_names().contains(name@),
{
    let mut i: usize = 0;
    while i < manifest.partitions.len()
        invariant
            i <= manifest.partitions.len(),
            forall|j: int| 0 <= j < i ==> manifest.partition_names()[j] != name@,
        decreases manifest.partitions.len() - i,
    {
        if str_eq(manifest.partitions[i].partition_name.as_str(), name) {
            assert(manifest.partition_names()[i as int] == name@);
            return true;
        }
        i += 1;
    }
    false
}

impl ImagePool {
    /// Opens the pool of a patch run. It fails where a replacement is given
    /// for a partition that the payload does not have.
    pub fn open(
        required: &RequiredImages,
        external: &Vec<String>,
        manifest: &DeltaArchiveManifest,
    ) -> (r: Result<ImagePool, OtaError>)
        ensures
            r is Ok <==> forall|i: int|
                0 <= i < external@.len() ==> manifest.partition_names().contains(
                    #[trigger] external@[i]@,
                ),
            r matches Ok(pool) ==> pool@ == opened(required@, names_view(external@)),
            r matches Err(e) ==> e matches OtaError::ReplaceMissingPartition(name) && exists|
                i: int,
            |
                0 <= i < external@.len() && external@[i]@ == name@
                    && !manifest.partition_names().contains(name@) && forall|j: int|
                    0 <= j < i ==> manifest.partition_names().contains(#[trigger] external@[j]@),
    {
        match check_external_images(manifest, external) {
            Ok(()) => Ok(open_input_files(required, external)),
            Err(e) => Err(e),
        }
    }
}

} // verus!
