//! Headers and descriptors of Android Verified Boot images, as the patching
//! decisions see them.
//!
//! Each type has a view made of sequences and integers. Contracts speak of
//! the views, so two values with the same contents count as the same.

use vstd::prelude::*;
use vstd::string::*;
use crate::text::str_eq;

verus! {

/// The signing algorithm named in a header.
#[derive(Clone, Copy, Debug, PartialEq, Eq, Structural)]
pub enum AlgorithmType {
    Unsigned,
    Sha256Rsa2048,
    Sha256Rsa4096,
    Sha256Rsa8192,
    Sha512Rsa2048,
    Sha512Rsa4096,
    Sha512Rsa8192,
}

/// The digest of a whole partition image.
#[derive(Debug)]
pub struct HashDescriptor {
    pub image_size: u64,
    pub hash_algorithm: String,
    pub partition_name: String,
    pub salt: Vec<u8>,
    pub root_digest: Vec<u8>,
    pub flags: u32,
}

/// The root of the hash tree of a partition image.
#[derive(Debug)]
pub struct HashTreeDescriptor {
    pub dm_verity_version: u32,
    pub image_size: u64,
    pub tree_offset: u64,
    pub tree_size: u64,
    pub data_block_size: u32,
    pub hash_block_size: u32,
    pub fec_num_roots: u32,
    pub fec_offset: u64,
    pub fec_size: u64,
    pub hash_algorithm: String,
    pub partition_name: String,
    pub salt: Vec<u8>,
    pub root_digest: Vec<u8>,
    pub flags: u32,
}

/// The key that a separately signed partition is verified with.
#[derive(Debug)]
pub struct ChainPartitionDescriptor {
    pub rollback_index_location: u32,
    pub partition_name: String,
    pub public_key: Vec<u8>,
    pub flags: u32,
}

/// A key with a value.
#[derive(Debug)]
pub struct PropertyDescriptor {
    pub key: String,
    pub value: Vec<u8>,
}

/// A piece of the kernel command line.
#[derive(Debug)]
pub struct KernelCmdlineDescriptor {
    pub flags: u32,
    pub cmdline: String,
}

/// One entry of a header.
#[derive(Debug)]
pub enum Descriptor {
    Hash(HashDescriptor),
    HashTree(HashTreeDescriptor),
    ChainPartition(ChainPartitionDescriptor),
    Property(PropertyDescriptor),
    KernelCmdline(KernelCmdlineDescriptor),
    /// A descriptor of a kind that patching passes through as it is.
    Unknown { tag: u64, data: Vec<u8> },
}

/// The header of a vbmeta image, or of the vbmeta block of another image.
#[derive(Debug)]
pub struct Header {
    pub required_libavb_version_major: u32,
    pub required_libavb_version_minor: u32,
    pub algorithm_type: AlgorithmType,
    pub hash: Vec<u8>,
    pub signature: Vec<u8>,
    pub public_key: Vec<u8>,
    pub public_key_metadata: Vec<u8>,
    pub descriptors: Vec<Descriptor>,
    pub rollback_index: u64,
    pub flags: u32,
    pub rollback_index_location: u32,
    pub release_string: String,
}

/// The footer that ties a vbmeta block to the end of another image.
#[derive(Clone, Copy, Debug, PartialEq, Eq, Structural)]
pub struct Footer {
    pub version_major: u32,
    pub version_minor: u32,
    pub original_image_size: u64,
    pub vbmeta_offset: u64,
    pub vbmeta_size: u64,
}

#[verifier::ext_equal]
pub struct HashDescriptorView {
    pub image_size: u64,
    pub hash_algorithm: Seq<char>,
    pub partition_name: Seq<char>,
    pub salt: Seq<u8>,
    pub root_digest: Seq<u8>,
    pub flags: u32,
}

#[verifier::ext_equal]
pub struct HashTreeDescriptorView {
    pub dm_verity_version: u32,
    pub image_size: u64,
    pub tree_offset: u64,
    pub tree_size: u64,
    pub data_block_size: u32,
    pub hash_block_size: u32,
    pub fec_num_roots: u32,
    pub fec_offset: u64,
    pub fec_size: u64,
    pub hash_algorithm: Seq<char>,
    pub partition_name: Seq<char>,
    pub salt: Seq<u8>,
    pub root_digest: Seq<u8>,
    pub flags: u32,
}

#[verifier::ext_equal]
pub struct ChainPartitionDescriptorView {
    pub rollback_index_location: u32,
    pub partition_name: Seq<char>,
    pub public_key: Seq<u8>,
    pub flags: u32,
}

#[verifier::ext_equal]
pub struct PropertyDescriptorView {
    pub key: Seq<char>,
    pub value: Seq<u8>,
}

#[verifier::ext_equal]
pub struct KernelCmdlineDescriptorView {
    pub flags: u32,
    pub cmdline: Seq<char>,
}

#[verifier::ext_equal]
pub enum DescriptorView {
    Hash(HashDescriptorView),
    HashTree(HashTreeDescriptorView),
    ChainPartition(ChainPartitionDescriptorView),
    Property(PropertyDescriptorView),
    KernelCmdline(KernelCmdlineDescriptorView),
    Unknown { tag: u64, data: Seq<u8> },
}

#[verifier::ext_equal]
pub struct HeaderView {
    pub required_libavb_version_major: u32,
    pub required_libavb_version_minor: u32,
    pub algorithm_type: AlgorithmType,
    pub hash: Seq<u8>,
    pub signature: Seq<u8>,
    pub public_key: Seq<u8>,
    pub public_key_metadata: Seq<u8>,
    pub descriptors: Seq<DescriptorView>,
    pub rollback_index: u64,
    pub flags: u32,
    pub rollback_index_location: u32,
    pub release_string: Seq<char>,
}

impl View for HashDescriptor {
    type V = HashDescriptorView;

    open spec fn view(&self) -> HashDescriptorView {
        HashDescriptorView {
            image_size: self.image_size,
            hash_algorithm: self.hash_algorithm@,
            partition_name: self.partition_name@,
            salt: self.salt@,
            root_digest: self.root_digest@,
            flags: self.flags,
        }
    }
}

impl View for HashTreeDescriptor {
    type V = HashTreeDescriptorView;

    open spec fn view(&self) -> HashTreeDescriptorView {
        HashTreeDescriptorView {
            dm_verity_version: self.dm_verity_version,
            image_size: self.image_size,
            tree_offset: self.tree_offset,
            tree_size: self.tree_size,
            data_block_size: self.data_block_size,
            hash_block_size: self.hash_block_size,
            fec_num_roots: self.fec_num_roots,
            fec_offset: self.fec_offset,
            fec_size: self.fec_size,
            hash_algorithm: self.hash_algorithm@,
            partition_name: self.partition_name@,
            salt: self.salt@,
            root_digest: self.root_digest@,
            flags: self.flags,
        }
    }
}

impl View for ChainPartitionDescriptor {
    type V = ChainPartitionDescriptorView;

    open spec fn view(&self) -> ChainPartitionDescriptorView {
        ChainPartitionDescriptorView {
            rollback_index_location: self.rollback_index_location,
            partition_name: self.partition_name@,
            public_key: self.public_key@,
            flags: self.flags,
        }
    }
}

impl View for PropertyDescriptor {
    type V = PropertyDescriptorView;

    open spec fn view(&self) -> PropertyDescriptorView {
        PropertyDescriptorView { key: self.key@, value: self.value@ }
    }
}

impl View for KernelCmdlineDescriptor {
    type V = KernelCmdlineDescriptorView;

    open spec fn view(&self) -> KernelCmdlineDescriptorView {
        KernelCmdlineDescriptorView { flags: self.flags, cmdline: self.cmdline@ }
    }
}

impl View for Descriptor {
    type V = DescriptorView;

    open spec fn view(&self) -> DescriptorView {
        match self {
            Descriptor::Hash(d) => DescriptorView::Hash(d@),
            Descriptor::HashTree(d) => DescriptorView::HashTree(d@),
            Descriptor::ChainPartition(d) => DescriptorView::ChainPartition(d@),
            Descriptor::Property(d) => DescriptorView::Property(d@),
            Descriptor::KernelCmdline(d) => DescriptorView::KernelCmdline(d@),
            Descriptor::Unknown { tag, data } => DescriptorView::Unknown { tag: *tag, data: data@ },
        }
    }
}

/// The views of a list of descriptors.
pub open spec fn descriptor_views(list: Seq<Descriptor>) -> Seq<DescriptorView> {
    Seq::new(list.len(), |i: int| list[i]@)
}

impl View for Header {
    type V = HeaderView;

    open spec fn view(&self) -> HeaderView {
        HeaderView {
            required_libavb_version_major: self.required_libavb_version_major,
            required_libavb_version_minor: self.required_libavb_version_minor,
            algorithm_type: self.algorithm_type,
            hash: self.hash@,
            signature: self.signature@,
            public_key: self.public_key@,
            public_key_metadata: self.public_key_metadata@,
            descriptors: descriptor_views(self.descriptors@),
            rollback_index: self.rollback_index,
            flags: self.flags,
            rollback_index_location: self.rollback_index_location,
            release_string: self.release_string@,
        }
    }
}

impl DescriptorView {
    /// The partition that the descriptor is about. Properties, pieces of
    /// the command line and unknown descriptors are about none.
    pub open spec fn partition_name(self) -> Option<Seq<char>> {
        match self {
            DescriptorView::Hash(d) => Some(d.partition_name),
            DescriptorView::HashTree(d) => Some(d.partition_name),
            DescriptorView::ChainPartition(d) => Some(d.partition_name),
            _ => None,
        }
    }
}

impl HeaderView {
    /// A header is signed where it carries a public key.
    pub open spec fn is_signed(self) -> bool {
        self.public_key.len() > 0
    }

    /// The index of the first descriptor about `name`, or the number of
    /// descriptors where there is none.
    pub open spec fn descriptor_index(self, name: Seq<char>) -> int {
        first_about(self.descriptors, name)
    }

    /// Whether a descriptor of the header is about `name`.
    pub open spec fn mentions(self, name: Seq<char>) -> bool {
        exists|i: int|
            0 <= i < self.descriptors.len() && (#[trigger] self.descriptors[i]).partition_name()
                == Some(name)
    }
}

/// The index of the first descriptor of `list` about `name`, or the length
/// of `list` where there is none.
pub open spec fn first_about(list: Seq<DescriptorView>, name: Seq<char>) -> int
    decreases list.len(),
{
    if list.len() == 0 {
        0
    } else if list[0].partition_name() == Some(name) {
        0
    } else {
        1 + first_about(list.drop_first(), name)
    }
}

/// `first_about` is the index of a descriptor about the name, and there is
/// none before it.
pub proof fn lemma_first_about(list: Seq<DescriptorView>, name: Seq<char>)
    ensures
        0 <= first_about(list, name) <= list.len(),
        first_about(list, name) < list.len() ==> list[first_about(list, name)].partition_name()
            == Some(name),
        forall|i: int|
            0 <= i < first_about(list, name) ==> (#[trigger] list[i]).partition_name() != Some(
                name,
            ),
    decreases list.len(),
{
    if list.len() > 0 && list[0].partition_name() != Some(name) {
        let rest = list.drop_first();
        lemma_first_about(rest, name);
        assert forall|i: int| 0 <= i < first_about(list, name) implies (#[trigger] list[i]).partition_name()
            != Some(name) by {
            if i > 0 {
                assert(list[i] == rest[i - 1]);
            }
        }
        if first_about(list, name) < list.len() {
            assert(list[first_about(list, name)] == rest[first_about(rest, name)]);
        }
    }
}

/// The index of the first descriptor of `list` that `pred` holds of, or the
/// length of `list` where it holds of none.
pub open spec fn first_where(list: Seq<DescriptorView>, pred: spec_fn(DescriptorView) -> bool) -> int
    decreases list.len(),
{
    if list.len() == 0 {
        0
    } else if pred(list[0]) {
        0
    } else {
        1 + first_where(list.drop_first(), pred)
    }
}

/// `first_where` is the index of a descriptor that the predicate holds of,
/// and there is none before it.
pub proof fn lemma_first_where(list: Seq<DescriptorView>, pred: spec_fn(DescriptorView) -> bool)
    ensures
        0 <= first_where(list, pred) <= list.len(),
        first_where(list, pred) < list.len() ==> pred(list[first_where(list, pred)]),
        forall|i: int| 0 <= i < first_where(list, pred) ==> !pred(#[trigger] list[i]),
    decreases list.len(),
{
    if list.len() > 0 && !pred(list[0]) {
        let rest = list.drop_first();
        lemma_first_where(rest, pred);
        assert forall|i: int| 0 <= i < first_where(list, pred) implies !pred(
            #[trigger] list[i],
        ) by {
            if i > 0 {
                assert(list[i] == rest[i - 1]);
            }
        }
        if first_where(list, pred) < list.len() {
            assert(list[first_where(list, pred)] == rest[first_where(rest, pred)]);
        }
    }
}

/// The first index at which `pred` holds is the one before which it holds
/// nowhere.
pub proof fn lemma_first_where_is(
    list: Seq<DescriptorView>,
    pred: spec_fn(DescriptorView) -> bool,
    k: int,
)
    requires
        0 <= k <= list.len(),
        forall|i: int| 0 <= i < k ==> !pred(#[trigger] list[i]),
        k < list.len() ==> pred(list[k]),
    ensures
        first_where(list, pred) == k,
{
    lemma_first_where(list, pred);
    let f = first_where(list, pred);
    if f < k {
        assert(!pred(list[f]));
    } else if k < f {
        assert(!pred(list[k]));
    }
}

/// Whether two byte strings hold the same bytes.
pub fn bytes_eq(a: &Vec<u8>, b: &Vec<u8>) -> (r: bool)
    ensures
        r == (a@ == b@),
{
    if a.len() != b.len() {
        return false;
    }
    let mut i: usize = 0;
    while i < a.len()
        invariant
            i <= a.len(),
            a.len() == b.len(),
            forall|j: int| 0 <= j < i ==> a@[j] == b@[j],
        decreases a.len() - i,
    {
        if a[i] != b[i] {
            return false;
        }
        i += 1;
    }
    assert(a@ =~= b@);
    true
}

/// A copy of a byte string.
pub fn bytes_clone(a: &Vec<u8>) -> (r: Vec<u8>)
    ensures
        r@ == a@,
{
    let mut out: Vec<u8> = Vec::with_capacity(a.len());
    let mut i: usize = 0;
    while i < a.len()
        invariant
            i <= a.len(),
            out@ == a@.take(i as int),
        decreases a.len() - i,
    {
        out.push(a[i]);
        assert(a@.take(i + 1) =~= a@.take(i as int).push(a@[i as int]));
        i += 1;
    }
    assert(a@.take(i as int) =~= a@);
    out
}

impl HashDescriptor {
    /// A copy with the same contents.
    pub fn duplicate(&self) -> (r: Self)
        ensures
            r@ == self@,
    {
        HashDescriptor {
            image_size: self.image_size,
            hash_algorithm: self.hash_algorithm.clone(),
            partition_name: self.partition_name.clone(),
            salt: bytes_clone(&self.salt),
            root_digest: bytes_clone(&self.root_digest),
            flags: self.flags,
        }
    }

    /// Whether the two hold the same contents.
    pub fn same(&self, other: &Self) -> (r: bool)
        ensures
            r == (self@ == other@),
    {
        self.image_size == other.image_size && str_eq(
            self.hash_algorithm.as_str(),
            other.hash_algorithm.as_str(),
        ) && str_eq(self.partition_name.as_str(), other.partition_name.as_str()) && bytes_eq(
            &self.salt,
            &other.salt,
        ) && bytes_eq(&self.root_digest, &other.root_digest) && self.flags == other.flags
    }
}

impl HashTreeDescriptor {
    /// A copy with the same contents.
    pub fn duplicate(&self) -> (r: Self)
        ensures
            r@ == self@,
    {
        HashTreeDescriptor {
            dm_verity_version: self.dm_verity_version,
            image_size: self.image_size,
            tree_offset: self.tree_offset,
            tree_size: self.tree_size,
            data_block_size: self.data_block_size,
            hash_block_size: self.hash_block_size,
            fec_num_roots: self.fec_num_roots,
            fec_offset: self.fec_offset,
            fec_size: self.fec_size,
            hash_algorithm: self.hash_algorithm.clone(),
            partition_name: self.partition_name.clone(),
            salt: bytes_clone(&self.salt),
            root_digest: bytes_clone(&self.root_digest),
            flags: self.flags,
        }
    }

    /// Whether the two hold the same contents.
    pub fn same(&self, other: &Self) -> (r: bool)
        ensures
            r == (self@ == other@),
    {
        self.dm_verity_version == other.dm_verity_version && self.image_size == other.image_size
            && self.tree_offset == other.tree_offset && self.tree_size == other.tree_size
            && self.data_block_size == other.data_block_size && self.hash_block_size
            == other.hash_block_size && self.fec_num_roots == other.fec_num_roots
            && self.fec_offset == other.fec_offset && self.fec_size == other.fec_size && str_eq(
            self.hash_algorithm.as_str(),
            other.hash_algorithm.as_str(),
        ) && str_eq(self.partition_name.as_str(), other.partition_name.as_str()) && bytes_eq(
            &self.salt,
            &other.salt,
        ) && bytes_eq(&self.root_digest, &other.root_digest) && self.flags == other.flags
    }
}

impl ChainPartitionDescriptor {
    /// A copy with the same contents.
    pub fn duplicate(&self) -> (r: Self)
        ensures
            r@ == self@,
    {
        ChainPartitionDescriptor {
            rollback_index_location: self.rollback_index_location,
            partition_name: self.partition_name.clone(),
            public_key: bytes_clone(&self.public_key),
            flags: self.flags,
        }
    }

    /// Whether the two hold the same contents.
    pub fn same(&self, other: &Self) -> (r: bool)
        ensures
            r == (self@ == other@),
    {
        self.rollback_index_location == other.rollback_index_location && str_eq(
            self.partition_name.as_str(),
            other.partition_name.as_str(),
        ) && bytes_eq(&self.public_key, &other.public_key) && self.flags == other.flags
    }
}

impl PropertyDescriptor {
    /// A copy with the same contents.
    pub fn duplicate(&self) -> (r: Self)
        ensures
            r@ == self@,
    {
        PropertyDescriptor { key: self.key.clone(), value: bytes_clone(&self.value) }
    }

    /// Whether the two hold the same contents.
    pub fn same(&self, other: &Self) -> (r: bool)
        ensures
            r == (self@ == other@),
    {
        str_eq(self.key.as_str(), other.key.as_str()) && bytes_eq(&self.value, &other.value)
    }
}

impl KernelCmdlineDescriptor {
    /// A copy with the same contents.
    pub fn duplicate(&self) -> (r: Self)
        ensures
            r@ == self@,
    {
        KernelCmdlineDescriptor { flags: self.flags, cmdline: self.cmdline.clone() }
    }

    /// Whether the two hold the same contents.
    pub fn same(&self, other: &Self) -> (r: bool)
        ensures
            r == (self@ == other@),
    {
        self.flags == other.flags && str_eq(self.cmdline.as_str(), other.cmdline.as_str())
    }
}

impl Descriptor {
    /// The partition that the descriptor is about, if it is about one.
    pub fn partition_name(&self) -> (r: Option<&str>)
        ensures
            match r {
                Some(n) => self@.partition_name() == Some(n@),
                None => self@.partition_name() is None,
            },
    {
        match self {
            Descriptor::Hash(d) => Some(d.partition_name.as_str()),
            Descriptor::HashTree(d) => Some(d.partition_name.as_str()),
            Descriptor::ChainPartition(d) => Some(d.partition_name.as_str()),
            _ => None,
        }
    }

    /// Whether the descriptor is about the partition `name`.
    pub fn is_about(&self, name: &str) -> (r: bool)
        ensures
            r == (self@.partition_name() == Some(name@)),
    {
        match self.partition_name() {
            Some(n) => str_eq(n, name),
            None => false,
        }
    }

    /// A copy with the same contents.
    pub fn duplicate(&self) -> (r: Self)
        ensures
            r@ == self@,
    {
        match self {
            Descriptor::Hash(d) => Descriptor::Hash(d.duplicate()),
            Descriptor::HashTree(d) => Descriptor::HashTree(d.duplicate()),
            Descriptor::ChainPartition(d) => Descriptor::ChainPartition(d.duplicate()),
            Descriptor::Property(d) => Descriptor::Property(d.duplicate()),
            Descriptor::KernelCmdline(d) => Descriptor::KernelCmdline(d.duplicate()),
            Descriptor::Unknown { tag, data } => Descriptor::Unknown {
                tag: *tag,
                data: bytes_clone(data),
            },
        }
    }

    /// Whether the two hold the same contents.
    pub fn same(&self, other: &Self) -> (r: bool)
        ensures
            r == (self@ == other@),
    {
        match (self, other) {
            (Descriptor::Hash(a), Descriptor::Hash(b)) => a.same(b),
            (Descriptor::HashTree(a), Descriptor::HashTree(b)) => a.same(b),
            (Descriptor::ChainPartition(a), Descriptor::ChainPartition(b)) => a.same(b),
            (Descriptor::Property(a), Descriptor::Property(b)) => a.same(b),
            (Descriptor::KernelCmdline(a), Descriptor::KernelCmdline(b)) => a.same(b),
            (
                Descriptor::Unknown { tag: t1, data: d1 },
                Descriptor::Unknown { tag: t2, data: d2 },
            ) => *t1 == *t2 && bytes_eq(d1, d2),
            _ => false,
        }
    }
}

impl Header {
    /// Whether the header carries a public key.
    pub fn is_signed(&self) -> (r: bool)
        ensures
            r == self@.is_signed(),
    {
        self.public_key.len() > 0
    }

    /// The index of the first descriptor about `name`.
    pub fn find_descriptor(&self, name: &str) -> (r: Option<usize>)
        ensures
            match r {
                Some(i) => i == self@.descriptor_index(name@) && i < self.descriptors@.len(),
                None => self@.descriptor_index(name@) == self.descriptors@.len(),
            },
            r is Some <==> self@.mentions(name@),
    {
        let ghost views = self@.descriptors;
        let mut i: usize = 0;
        proof {
            lemma_first_about(views, name@);
        }
        while i < self.descriptors.len()
            invariant
                i <= self.descriptors.len(),
                views == self@.descriptors,
                forall|j: int| 0 <= j < i ==> (#[trigger] views[j]).partition_name() != Some(name@),
                i <= first_about(views, name@) <= views.len(),
                first_about(views, name@) < views.len() ==> views[first_about(
                    views,
                    name@,
                )].partition_name() == Some(name@),
                forall|j: int|
                    0 <= j < first_about(views, name@) ==> (#[trigger] views[j]).partition_name()
                        != Some(name@),
            decreases self.descriptors.len() - i,
        {
            assert(views[i as int] == self.descriptors@[i as int]@);
            if self.descriptors[i].is_about(name) {
                return Some(i);
            }
            i += 1;
        }
        None
    }

    /// A copy with the same contents.
    pub fn duplicate(&self) -> (r: Self)
        ensures
            r@ == self@,
    {
        let mut descriptors: Vec<Descriptor> = Vec::with_capacity(self.descriptors.len());
        let mut i: usize = 0;
        while i < self.descriptors.len()
            invariant
                i <= self.descriptors.len(),
                descriptor_views(descriptors@) == descriptor_views(self.descriptors@).take(
                    i as int,
                ),
            decreases self.descriptors.len() - i,
        {
            let ghost prior = descriptor_views(descriptors@);
            descriptors.push(self.descriptors[i].duplicate());
            assert(descriptor_views(descriptors@) =~= prior.push(self.descriptors@[i as int]@));
            assert(descriptor_views(self.descriptors@).take(i + 1) =~= descriptor_views(
                self.descriptors@,
            ).take(i as int).push(self.descriptors@[i as int]@));
            i += 1;
        }
        assert(descriptor_views(self.descriptors@).take(i as int) =~= descriptor_views(
            self.descriptors@,
        ));
        Header {
            required_libavb_version_major: self.required_libavb_version_major,
            required_libavb_version_minor: self.required_libavb_version_minor,
            algorithm_type: self.algorithm_type,
            hash: bytes_clone(&self.hash),
            signature: bytes_clone(&self.signature),
            public_key: bytes_clone(&self.public_key),
            public_key_metadata: bytes_clone(&self.public_key_metadata),
            descriptors,
            rollback_index: self.rollback_index,
            flags: self.flags,
            rollback_index_location: self.rollback_index_location,
            release_string: self.release_string.clone(),
        }
    }

    /// Whether the two hold the same contents.
    pub fn same(&self, other: &Self) -> (r: bool)
        ensures
            r == (self@ == other@),
    {
        if !(self.required_libavb_version_major == other.required_libavb_version_major
            && self.required_libavb_version_minor == other.required_libavb_version_minor
            && self.algorithm_type == other.algorithm_type && bytes_eq(&self.hash, &other.hash)
            && bytes_eq(&self.signature, &other.signature) && bytes_eq(
            &self.public_key,
            &other.public_key,
        ) && bytes_eq(&self.public_key_metadata, &other.public_key_metadata)
            && self.rollback_index == other.rollback_index && self.flags == other.flags
            && self.rollback_index_location == other.rollback_index_location && str_eq(
            self.release_string.as_str(),
            other.release_string.as_str(),
        )) {
            return false;
        }
        if self.descriptors.len() != other.descriptors.len() {
            assert(self@.descriptors.len() != other@.descriptors.len());
            return false;
        }
        let mut i: usize = 0;
        while i < self.descriptors.len()
            invariant
                i <= self.descriptors.len(),
                self.descriptors.len() == other.descriptors.len(),
                forall|j: int| 0 <= j < i ==> self@.descriptors[j] == other@.descriptors[j],
            decreases self.descriptors.len() - i,
        {
            if !self.descriptors[i].same(&other.descriptors[i]) {
                assert(self@.descriptors[i as int] != other@.descriptors[i as int]);
                return false;
            }
            i += 1;
        }
        assert(self@.descriptors =~= other@.descriptors);
        true
    }
}

} // verus!
