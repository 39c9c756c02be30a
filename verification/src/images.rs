//! Partition names and the set of images that a patch has to look at.

use vstd::prelude::*;
use vstd::string::*;
use crate::manifest::DeltaArchiveManifest;
use crate::text::{contains_name, distinct, is_prefix_of, names_view, starts_with, str_eq};

verus! {

/// A boot image: one of the four partitions that can carry a ramdisk.
pub open spec fn is_boot_name(name: Seq<char>) -> bool {
    name == "boot"@ || name == "init_boot"@ || name == "recovery"@ || name == "vendor_boot"@
}

/// The system image.
pub open spec fn is_system_name(name: Seq<char>) -> bool {
    name == "system"@
}

/// A vbmeta image: any partition whose name begins with `vbmeta`.
pub open spec fn is_vbmeta_name(name: Seq<char>) -> bool {
    is_prefix_of("vbmeta"@, name)
}

/// A partition that a patch reads: boot-like, system or vbmeta-like.
pub open spec fn is_required_name(name: Seq<char>) -> bool {
    is_boot_name(name) || is_system_name(name) || is_vbmeta_name(name)
}

/// The required names among `names`, in their order, each of them once.
pub open spec fn required_names(names: Seq<Seq<char>>) -> Seq<Seq<char>>
    decreases names.len(),
{
    if names.len() == 0 {
        Seq::empty()
    } else {
        let rest = required_names(names.drop_last());
        if is_required_name(names.last()) && !rest.contains(names.last()) {
            rest.push(names.last())
        } else {
            rest
        }
    }
}

/// `required_names` holds nothing twice, only required names, and each
/// required name of its argument.
pub proof fn lemma_required_names(names: Seq<Seq<char>>)
    ensures
        distinct(required_names(names)),
        forall|n: Seq<char>| #[trigger]
            required_names(names).contains(n) <==> names.contains(n) && is_required_name(n),
    decreases names.len(),
{
    let out = required_names(names);
    if names.len() > 0 {
        let init = names.drop_last();
        let rest = required_names(init);
        let last = names.last();
        lemma_required_names(init);
        assert forall|n: Seq<char>| #[trigger]
            out.contains(n) <==> names.contains(n) && is_required_name(n) by {
            if out.contains(n) {
                let k = choose|k: int| 0 <= k < out.len() && out[k] == n;
                if k < rest.len() {
                    assert(rest[k] == n);
                    assert(rest.contains(n));
                    let j = choose|j: int| 0 <= j < init.len() && init[j] == n;
                    assert(names[j] == n);
                } else {
                    assert(n == last);
                    assert(names[names.len() - 1] == n);
                }
            }
            if names.contains(n) && is_required_name(n) {
                let j = choose|j: int| 0 <= j < names.len() && names[j] == n;
                if j < init.len() {
                    assert(init[j] == n);
                    assert(rest.contains(n));
                    let k = choose|k: int| 0 <= k < rest.len() && rest[k] == n;
                    assert(out[k] == n);
                } else if rest.contains(n) {
                    let k = choose|k: int| 0 <= k < rest.len() && rest[k] == n;
                    assert(out[k] == n);
                } else {
                    assert(out[out.len() - 1] == n);
                }
            }
        }
        assert forall|i: int, j: int| 0 <= i < j < out.len() implies out[i] != out[j] by {
            if j < rest.len() {
                assert(rest[i] != rest[j]);
            } else {
                assert(rest[i] == out[i]);
                assert(rest.contains(out[i]));
            }
        }
    }
}

/// The names kept by `pred`, for one more name of the list.
pub proof fn lemma_filter_step(names: Seq<Seq<char>>, pred: spec_fn(Seq<char>) -> bool, i: int)
    requires
        0 <= i < names.len(),
    ensures
        names.take(i + 1).filter(pred) == if pred(names[i]) {
            names.take(i).filter(pred).push(names[i])
        } else {
            names.take(i).filter(pred)
        },
{
    reveal(Seq::filter);
    assert(names.take(i + 1).drop_last() =~= names.take(i));
}

/// The boot-like, system and vbmeta-like partitions of a payload.
pub struct RequiredImages {
    names: Vec<String>,
}

impl View for RequiredImages {
    type V = Seq<Seq<char>>;

    closed spec fn view(&self) -> Seq<Seq<char>> {
        names_view(self.names@)
    }
}

impl RequiredImages {
    /// The required partitions of `manifest`, in manifest order.
    pub fn new(manifest: &DeltaArchiveManifest) -> (r: Self)
        ensures
            r@ == required_names(manifest.partition_names()),
    {
        let ghost all = manifest.partition_names();
        let mut names: Vec<String> = Vec::new();
        let mut i: usize = 0;
        proof {
            assert(all.take(0) =~= Seq::empty());
        }
        while i < manifest.partitions.len()
            invariant
                i <= manifest.partitions.len(),
                all == manifest.partition_names(),
                names_view(names@) == required_names(all.take(i as int)),
            decreases manifest.partitions.len() - i,
        {
            let name = &manifest.partitions[i].partition_name;
            let ghost kept = names_view(names@);
            proof {
                assert(all.take(i + 1).drop_last() =~= all.take(i as int));
                assert(all.take(i + 1).last() == name@);
            }
            if (Self::is_boot(name.as_str()) || Self::is_system(name.as_str()) || Self::is_vbmeta(
                name.as_str(),
            )) && !contains_name(&names, name.as_str()) {
                names.push(name.clone());
                assert(names_view(names@) =~= kept.push(name@));
            }
            i += 1;
        }
        proof {
            assert(all.take(i as int) =~= all);
        }
        RequiredImages { names }
    }

    /// Whether `name` is one of `boot`, `init_boot`, `recovery`, `vendor_boot`.
    pub fn is_boot(name: &str) -> (r: bool)
        ensures
            r == is_boot_name(name@),
    {
        str_eq(name, "boot") || str_eq(name, "init_boot") || str_eq(name, "recovery") || str_eq(
            name,
            "vendor_boot",
        )
    }

    /// Whether `name` is `system`.
    pub fn is_system(name: &str) -> (r: bool)
        ensures
            r == is_system_name(name@),
    {
        str_eq(name, "system")
    }

    /// Whether `name` begins with `vbmeta`.
    pub fn is_vbmeta(name: &str) -> (r: bool)
        ensures
            r == is_vbmeta_name(name@),
    {
        starts_with(name, "vbmeta")
    }

    /// All required names.
    pub fn iter(&self) -> (r: Vec<String>)
        ensures
            names_view(r@) == self@,
    {
        let mut out: Vec<String> = Vec::new();
        let mut i: usize = 0;
        while i < self.names.len()
            invariant
                i <= self.names.len(),
                names_view(out@) == names_view(self.names@).take(i as int),
            decreases self.names.len() - i,
        {
            let ghost kept = names_view(out@);
            out.push(self.names[i].clone());
            assert(names_view(out@) =~= kept.push(self.names@[i as int]@));
            assert(names_view(self.names@).take(i + 1) =~= names_view(self.names@).take(
                i as int,
            ).push(self.names@[i as int]@));
            i += 1;
        }
        assert(names_view(self.names@).take(i as int) =~= names_view(self.names@));
        out
    }

    /// The boot-like names among the required ones.
    pub fn iter_boot(&self) -> (r: Vec<String>)
        ensures
            names_view(r@) == self@.filter(|n: Seq<char>| is_boot_name(n)),
    {
        let ghost pred = |n: Seq<char>| is_boot_name(n);
        let ghost all = names_view(self.names@);
        let mut out: Vec<String> = Vec::new();
        let mut i: usize = 0;
        proof {
            reveal(Seq::filter);
            assert(all.take(0) =~= Seq::empty());
        }
        while i < self.names.len()
            invariant
                i <= self.names.len(),
                all == names_view(self.names@),
                pred == |n: Seq<char>| is_boot_name(n),
                names_view(out@) == all.take(i as int).filter(pred),
            decreases self.names.len() - i,
        {
            let ghost kept = names_view(out@);
            proof {
                lemma_filter_step(all, pred, i as int);
            }
            if Self::is_boot(self.names[i].as_str()) {
                out.push(self.names[i].clone());
                assert(names_view(out@) =~= kept.push(self.names@[i as int]@));
            }
            i += 1;
        }
        assert(all.take(i as int) =~= all);
        out
    }

    /// The system partition, where the payload has one.
    pub fn iter_system(&self) -> (r: Vec<String>)
        ensures
            names_view(r@) == self@.filter(|n: Seq<char>| is_system_name(n)),
    {
        let ghost pred = |n: Seq<char>| is_system_name(n);
        let ghost all = names_view(self.names@);
        let mut out: Vec<String> = Vec::new();
        let mut i: usize = 0;
        proof {
            reveal(Seq::filter);
            assert(all.take(0) =~= Seq::empty());
        }
        while i < self.names.len()
            invariant
                i <= self.names.len(),
                all == names_view(self.names@),
                pred == |n: Seq<char>| is_system_name(n),
                names_view(out@) == all.take(i as int).filter(pred),
            decreases self.names.len() - i,
        {
            let ghost kept = names_view(out@);
            proof {
                lemma_filter_step(all, pred, i as int);
            }
            if Self::is_system(self.names[i].as_str()) {
                out.push(self.names[i].clone());
                assert(names_view(out@) =~= kept.push(self.names@[i as int]@));
            }
            i += 1;
        }
        assert(all.take(i as int) =~= all);
        out
    }

    /// The vbmeta-like names among the required ones.
    pub fn iter_vbmeta(&self) -> (r: Vec<String>)
        ensures
            names_view(r@) == self@.filter(|n: Seq<char>| is_vbmeta_name(n)),
    {
        let ghost pred = |n: Seq<char>| is_vbmeta_name(n);
        let ghost all = names_view(self.names@);
        let mut out: Vec<String> = Vec::new();
        let mut i: usize = 0;
        proof {
            reveal(Seq::filter);
            assert(all.take(0) =~= Seq::empty());
        }
        while i < self.names.len()
            invariant
                i <= self.names.len(),
                all == names_view(self.names@),
                pred == |n: Seq<char>| is_vbmeta_name(n),
                names_view(out@) == all.take(i as int).filter(pred),
            decreases self.names.len() - i,
        {
            let ghost kept = names_view(out@);
            proof {
                lemma_filter_step(all, pred, i as int);
            }
            if Self::is_vbmeta(self.names[i].as_str()) {
                out.push(self.names[i].clone());
                assert(names_view(out@) =~= kept.push(self.names@[i as int]@));
            }
            i += 1;
        }
        assert(all.take(i as int) =~= all);
        out
    }
}

} // verus!
