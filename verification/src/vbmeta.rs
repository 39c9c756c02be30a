//! Bringing the descriptors of a vbmeta header up to date with the images
//! that it covers.

use vstd::prelude::*;
use vstd::string::*;
use crate::avb::{
    bytes_clone, descriptor_views, first_where, lemma_first_about, lemma_first_where,
    lemma_first_where_is, ChainPartitionDescriptor, Descriptor, DescriptorView, Header,
    HeaderView, KernelCmdlineDescriptor, KernelCmdlineDescriptorView, PropertyDescriptor,
    PropertyDescriptorView, ChainPartitionDescriptorView,
};
use crate::error::OtaError;
use crate::text::{first_index_of, lemma_first_index_of, str_eq, to_chars};

verus! {

/// The text before the first `=` of a kernel command line, where there is
/// an `=` and some text before it.
pub open spec fn cmdline_prefix_of(cmdline: Seq<char>) -> Option<Seq<char>> {
    let k = first_index_of(cmdline, '=');
    if 0 < k < cmdline.len() {
        Some(cmdline.subrange(0, k))
    } else {
        None
    }
}

/// The text before the first equal sign of the kernel command line, if
/// there is an equal sign and the text is not empty.
pub fn cmdline_prefix(cmdline: &str) -> (r: Option<&str>)
    ensures
        match r {
            Some(p) => cmdline_prefix_of(cmdline@) == Some(p@),
            None => cmdline_prefix_of(cmdline@) is None,
        },
{
    let chars = to_chars(cmdline);
    let mut k: usize = 0;
    proof {
        lemma_first_index_of(cmdline@, '=');
    }
    while k < chars.len() && chars[k] != '='
        invariant
            k <= chars.len(),
            chars@ == cmdline@,
            forall|j: int| 0 <= j < k ==> chars@[j] != '=',
        decreases chars.len() - k,
    {
        k += 1;
    }
    proof {
        let f = first_index_of(cmdline@, '=');
        if f < k {
            assert(chars@[f] == '=');
        }
        if k < f {
            assert(cmdline@[k as int] != '=');
        }
        assert(f == k);
    }
    if k == chars.len() || k == 0 {
        None
    } else {
        Some(cmdline.substring_char(0, k))
    }
}

/// What bringing the descriptor of a child up to date comes to.
pub enum SecurityOutcome {
    /// The parent's descriptors after the update.
    Updated(Seq<DescriptorView>),
    /// The parent has no descriptor for the child.
    NoDescriptor,
    /// The child is unsigned and has no descriptor for itself.
    MissingSelf,
    /// The child's own descriptor is of another type than the parent's.
    Mismatch,
    /// The child is signed, and the parent's descriptor is no chain
    /// descriptor.
    NotChain,
}

/// The outcome of `update_security_descriptors`: the descriptor of `name`
/// in the parent takes the child's own hash or hash tree descriptor where
/// the child is unsigned, and the child's public key where it is signed.
pub open spec fn security_outcome(parent: HeaderView, child: HeaderView, name: Seq<char>) -> SecurityOutcome {
    let i = parent.descriptor_index(name);
    let pd = parent.descriptors[i];
    if !parent.mentions(name) {
        SecurityOutcome::NoDescriptor
    } else if !child.is_signed() {
        let j = child.descriptor_index(name);
        if j >= child.descriptors.len() {
            SecurityOutcome::MissingSelf
        } else {
            let cd = child.descriptors[j];
            if (pd is Hash && cd is Hash) || (pd is HashTree && cd is HashTree) {
                SecurityOutcome::Updated(parent.descriptors.update(i, cd))
            } else {
                SecurityOutcome::Mismatch
            }
        }
    } else {
        match pd {
            DescriptorView::ChainPartition(c) => SecurityOutcome::Updated(
                parent.descriptors.update(
                    i,
                    DescriptorView::ChainPartition(
                        ChainPartitionDescriptorView {
                            rollback_index_location: c.rollback_index_location,
                            partition_name: c.partition_name,
                            public_key: child.public_key,
                            flags: c.flags,
                        },
                    ),
                ),
            ),
            _ => SecurityOutcome::NotChain,
        }
    }
}

/// A header with other descriptors.
pub open spec fn with_descriptors(header: HeaderView, descriptors: Seq<DescriptorView>) -> HeaderView {
    HeaderView {
        required_libavb_version_major: header.required_libavb_version_major,
        required_libavb_version_minor: header.required_libavb_version_minor,
        algorithm_type: header.algorithm_type,
        hash: header.hash,
        signature: header.signature,
        public_key: header.public_key,
        public_key_metadata: header.public_key_metadata,
        descriptors: descriptors,
        rollback_index: header.rollback_index,
        flags: header.flags,
        rollback_index_location: header.rollback_index_location,
        release_string: header.release_string,
    }
}

/// Copies the hash or hash tree descriptor of the child into the parent
/// where the child is unsigned, and the child's public key into the
/// parent's chain descriptor where the child is signed. The descriptor
/// that the parent has for the child must be there and of the matching
/// type. On an error the parent is left as it was.
pub fn update_security_descriptors(
    parent_header: &mut Header,
    child_header: &Header,
    parent_name: &str,
    child_name: &str,
) -> (r: Result<(), OtaError>)
    ensures
        match security_outcome(old(parent_header)@, child_header@, child_name@) {
            SecurityOutcome::NoDescriptor => final(parent_header)@ == old(parent_header)@ && (
            r matches Err(OtaError::MissingDescriptor { child, parent }) && child@ == child_name@
                && parent@ == parent_name@),
            SecurityOutcome::Updated(ds) => r is Ok && final(parent_header)@ == with_descriptors(
                old(parent_header)@,
                ds,
            ),
            SecurityOutcome::MissingSelf => final(parent_header)@ == old(parent_header)@ && (
            r matches Err(OtaError::MissingSelfDescriptor(n)) && n@ == child_name@),
            SecurityOutcome::Mismatch => final(parent_header)@ == old(parent_header)@ && (
            r matches Err(OtaError::DescriptorMismatch { child, parent }) && child@ == child_name@
                && parent@ == parent_name@),
            SecurityOutcome::NotChain => final(parent_header)@ == old(parent_header)@ && (
            r matches Err(OtaError::NotChainDescriptor { child, parent }) && child@ == child_name@
                && parent@ == parent_name@),
        },
{
    let ghost before = parent_header@;
    let i = match parent_header.find_descriptor(child_name) {
        Some(i) => i,
        None => {
            return Err(
                OtaError::MissingDescriptor {
                    child: child_name.to_owned(),
                    parent: parent_name.to_owned(),
                },
            );
        },
    };
    assert(before.descriptors[i as int] == parent_header.descriptors@[i as int]@);
    if !child_header.is_signed() {
        let j = match child_header.find_descriptor(child_name) {
            Some(j) => j,
            None => {
                return Err(OtaError::MissingSelfDescriptor(child_name.to_owned()));
            },
        };
        assert(child_header@.descriptors[j as int] == child_header.descriptors@[j as int]@);
        let replacement = match (&parent_header.descriptors[i], &child_header.descriptors[j]) {
            (Descriptor::Hash(_), Descriptor::Hash(cd)) => Descriptor::Hash(cd.duplicate()),
            (Descriptor::HashTree(_), Descriptor::HashTree(cd)) => Descriptor::HashTree(
                cd.duplicate(),
            ),
            _ => {
                return Err(
                    OtaError::DescriptorMismatch {
                        child: child_name.to_owned(),
                        parent: parent_name.to_owned(),
                    },
                );
            },
        };
        parent_header.descriptors.set(i, replacement);
        proof {
            assert(descriptor_views(parent_header.descriptors@) =~= before.descriptors.update(
                i as int,
                child_header@.descriptors[j as int],
            ));
        }
        Ok(())
    } else {
        let replacement = match &parent_header.descriptors[i] {
            Descriptor::ChainPartition(pd) => Descriptor::ChainPartition(
                ChainPartitionDescriptor {
                    rollback_index_location: pd.rollback_index_location,
                    partition_name: pd.partition_name.clone(),
                    public_key: bytes_clone(&child_header.public_key),
                    flags: pd.flags,
                },
            ),
            _ => {
                return Err(
                    OtaError::NotChainDescriptor {
                        child: child_name.to_owned(),
                        parent: parent_name.to_owned(),
                    },
                );
            },
        };
        let ghost new_view = replacement@;
        parent_header.descriptors.set(i, replacement);
        proof {
            assert(descriptor_views(parent_header.descriptors@) =~= before.descriptors.update(
                i as int,
                new_view,
            ));
        }
        Ok(())
    }
}

/// A property descriptor with this key.
pub open spec fn is_property(d: DescriptorView, key: Seq<char>) -> bool {
    d matches DescriptorView::Property(p) && p.key == key
}

/// A command line descriptor whose text before the first `=` is `prefix`.
pub open spec fn is_cmdline(d: DescriptorView, prefix: Seq<char>) -> bool {
    d matches DescriptorView::KernelCmdline(c) && cmdline_prefix_of(c.cmdline) == Some(prefix)
}

/// The parent's descriptors after one descriptor of the child has been
/// merged in. A property replaces the value of the first property with its
/// key, a piece of the command line replaces the text of the first piece
/// with the same text before the first `=`; where the parent has none, the
/// descriptor is added at the end. A command line without `=`, or with
/// nothing before it, is passed over, and so is every other descriptor.
pub open spec fn merge_one(parent: Seq<DescriptorView>, cd: DescriptorView) -> Seq<DescriptorView> {
    match cd {
        DescriptorView::Property(c) => {
            let i = first_where(parent, |d: DescriptorView| is_property(d, c.key));
            if i < parent.len() {
                parent.update(i, cd)
            } else {
                parent.push(cd)
            }
        },
        DescriptorView::KernelCmdline(c) => {
            match cmdline_prefix_of(c.cmdline) {
                Some(prefix) => {
                    let i = first_where(parent, |d: DescriptorView| is_cmdline(d, prefix));
                    if i < parent.len() {
                        parent.update(
                            i,
                            DescriptorView::KernelCmdline(
                                KernelCmdlineDescriptorView {
                                    flags: parent[i]->KernelCmdline_0.flags,
                                    cmdline: c.cmdline,
                                },
                            ),
                        )
                    } else {
                        parent.push(cd)
                    }
                },
                None => parent,
            }
        },
        _ => parent,
    }
}

/// The parent's descriptors after the descriptors of the child have been
/// merged in, one after the other.
pub open spec fn merge_all(parent: Seq<DescriptorView>, child: Seq<DescriptorView>) -> Seq<
    DescriptorView,
>
    decreases child.len(),
{
    if child.len() == 0 {
        parent
    } else {
        merge_one(merge_all(parent, child.drop_last()), child.last())
    }
}

/// The outcome of `update_metadata_descriptors`.
pub open spec fn metadata_update(parent: HeaderView, child: HeaderView) -> HeaderView {
    if child.is_signed() {
        parent
    } else {
        with_descriptors(parent, merge_all(parent.descriptors, child.descriptors))
    }
}

fn find_property(list: &Vec<Descriptor>, key: &str) -> (r: Option<usize>)
    ensures
        match r {
            Some(i) => i < list@.len() && i == first_where(
                descriptor_views(list@),
                |d: DescriptorView| is_property(d, key@),
            ),
            None => first_where(descriptor_views(list@), |d: DescriptorView| is_property(d, key@))
                == list@.len(),
        },
{
    let ghost views = descriptor_views(list@);
    let ghost pred = |d: DescriptorView| is_property(d, key@);
    let mut i: usize = 0;
    while i < list.len()
        invariant
            i <= list.len(),
            views == descriptor_views(list@),
            pred == |d: DescriptorView| is_property(d, key@),
            forall|j: int| 0 <= j < i ==> !pred(#[trigger] views[j]),
        decreases list.len() - i,
    {
        assert(views[i as int] == list@[i as int]@);
        let hit = match &list[i] {
            Descriptor::Property(p) => str_eq(p.key.as_str(), key),
            _ => false,
        };
        if hit {
            proof {
                assert(pred(views[i as int]));
                lemma_first_where_is(views, pred, i as int);
            }
            return Some(i);
        }
        assert(!pred(views[i as int]));
        i += 1;
    }
    proof {
        lemma_first_where_is(views, pred, i as int);
    }
    None
}

fn find_cmdline(list: &Vec<Descriptor>, prefix: &str) -> (r: Option<usize>)
    ensures
        match r {
            Some(i) => i < list@.len() && i == first_where(
                descriptor_views(list@),
                |d: DescriptorView| is_cmdline(d, prefix@),
            ),
            None => first_where(descriptor_views(list@), |d: DescriptorView| is_cmdline(d, prefix@))
                == list@.len(),
        },
{
    let ghost views = descriptor_views(list@);
    let ghost pred = |d: DescriptorView| is_cmdline(d, prefix@);
    let mut i: usize = 0;
    while i < list.len()
        invariant
            i <= list.len(),
            views == descriptor_views(list@),
            pred == |d: DescriptorView| is_cmdline(d, prefix@),
            forall|j: int| 0 <= j < i ==> !pred(#[trigger] views[j]),
        decreases list.len() - i,
    {
        assert(views[i as int] == list@[i as int]@);
        let hit = match &list[i] {
            Descriptor::KernelCmdline(c) => match cmdline_prefix(c.cmdline.as_str()) {
                Some(p) => str_eq(p, prefix),
                None => false,
            },
            _ => false,
        };
        if hit {
            proof {
                assert(pred(views[i as int]));
                lemma_first_where_is(views, pred, i as int);
            }
            return Some(i);
        }
        assert(!pred(views[i as int]));
        i += 1;
    }
    proof {
        lemma_first_where_is(views, pred, i as int);
    }
    None
}

/// Merges one descriptor of a child into the descriptors of its parent.
fn merge_descriptor(list: &mut Vec<Descriptor>, cd: &Descriptor)
    ensures
        descriptor_views(final(list)@) == merge_one(descriptor_views(old(list)@), cd@),
{
    let ghost before = descriptor_views(list@);
    match cd {
        Descriptor::Property(c) => {
            match find_property(list, c.key.as_str()) {
                Some(i) => {
                    list.set(i, Descriptor::Property(c.duplicate()));
                    assert(descriptor_views(list@) =~= before.update(i as int, cd@));
                },
                None => {
                    list.push(Descriptor::Property(c.duplicate()));
                    assert(descriptor_views(list@) =~= before.push(cd@));
                },
            }
        },
        Descriptor::KernelCmdline(c) => {
            match cmdline_prefix(c.cmdline.as_str()) {
                Some(prefix) => {
                    match find_cmdline(list, prefix) {
                        Some(i) => {
                            assert(before[i as int] == list@[i as int]@);
                            proof {
                                lemma_first_where(
                                    before,
                                    |d: DescriptorView| is_cmdline(d, prefix@),
                                );
                            }
                            let flags = match &list[i] {
                                Descriptor::KernelCmdline(p) => p.flags,
                                _ => 0,
                            };
                            let merged = Descriptor::KernelCmdline(
                                KernelCmdlineDescriptor { flags, cmdline: c.cmdline.clone() },
                            );
                            let ghost merged_view = merged@;
                            list.set(i, merged);
                            assert(descriptor_views(list@) =~= before.update(
                                i as int,
                                merged_view,
                            ));
                        },
                        None => {
                            list.push(Descriptor::KernelCmdline(c.duplicate()));
                            assert(descriptor_views(list@) =~= before.push(cd@));
                        },
                    }
                },
                None => {},
            }
        },
        _ => {},
    }
}

/// Merges the property descriptors and the kernel command line descriptors
/// of the child into the parent. Properties are matched by their whole key,
/// command lines by the text before the first equal sign, where there is
/// one and the text is not empty. Nothing is done where the child is
/// signed: the parent then chain-loads it.
pub fn update_metadata_descriptors(parent_header: &mut Header, child_header: &Header)
    ensures
        final(parent_header)@ == metadata_update(old(parent_header)@, child_header@),
{
    if child_header.is_signed() {
        return ;
    }
    let ghost before = parent_header@;
    let ghost cds = child_header@.descriptors;
    let mut k: usize = 0;
    proof {
        assert(cds.take(0) =~= Seq::empty());
        assert(parent_header@ =~= with_descriptors(before, before.descriptors));
    }
    while k < child_header.descriptors.len()
        invariant
            k <= child_header.descriptors.len(),
            cds == child_header@.descriptors,
            parent_header@ == with_descriptors(
                before,
                merge_all(before.descriptors, cds.take(k as int)),
            ),
        decreases child_header.descriptors.len() - k,
    {
        proof {
            assert(cds.take(k + 1).drop_last() =~= cds.take(k as int));
            assert(cds.take(k + 1).last() == child_header.descriptors@[k as int]@);
        }
        merge_descriptor(&mut parent_header.descriptors, &child_header.descriptors[k]);
        k += 1;
    }
    proof {
        assert(cds.take(k as int) =~= cds);
    }
}

/// A descriptor that the merging of properties and command lines passes
/// over: one that is neither of the two.
pub open spec fn is_security(d: DescriptorView) -> bool {
    !(d is Property) && !(d is KernelCmdline)
}

/// Merging the properties and command lines of a child leaves every other
/// descriptor of the parent at its place.
pub proof fn lemma_merge_keeps_other_descriptors(
    parent: Seq<DescriptorView>,
    child: Seq<DescriptorView>,
    i: int,
)
    requires
        0 <= i < parent.len(),
        is_security(parent[i]),
    ensures
        merge_all(parent, child).len() >= parent.len(),
        merge_all(parent, child)[i] == parent[i],
    decreases child.len(),
{
    if child.len() > 0 {
        let acc = merge_all(parent, child.drop_last());
        lemma_merge_keeps_other_descriptors(parent, child.drop_last(), i);
        match child.last() {
            DescriptorView::Property(c) => {
                lemma_first_where(acc, |d: DescriptorView| is_property(d, c.key));
            },
            DescriptorView::KernelCmdline(c) => {
                match cmdline_prefix_of(c.cmdline) {
                    Some(prefix) => {
                        lemma_first_where(acc, |d: DescriptorView| is_cmdline(d, prefix));
                    },
                    None => {},
                }
            },
            _ => {},
        }
    }
}

} // verus!
