//! The passes over the vbmeta images of a patch run: reading their
//! headers, checking that they cover the partitions that matter, and
//! bringing them up to date in patch order.
//!
//! Reading an image, signing a header and writing it out are the caller's
//! work. The caller hands in the headers it has read and gets back the
//! headers to sign.

use vstd::prelude::*;
use vstd::string::*;
use crate::avb::{bytes_clone, AlgorithmType, Footer, Header, HeaderView};
use crate::error::OtaError;
use crate::graph::{clone_names, find_header, header_names, NamedHeader, PatchNode, Pool};
use crate::images::{is_boot_name, is_vbmeta_name, RequiredImages};
use crate::pool::{lemma_replaced, replaced, ImagePool, InputFileState};
use crate::text::{
    distinct, lemma_contains_push, lemma_position_is, lemma_position_of, lemma_take_next,
    names_view, position_of, sorted_unique, strictly_sorted,
};
use crate::vbmeta::{
    metadata_update, security_outcome, update_metadata_descriptors, update_security_descriptors,
    with_descriptors, SecurityOutcome,
};

verus! {

/// What reading one image gave: its header, and its footer if it has one.
#[derive(Debug)]
pub struct LoadedImage {
    pub name: String,
    pub header: Header,
    pub footer: Option<Footer>,
}

/// The names of a list of images.
pub open spec fn loaded_names(images: Seq<LoadedImage>) -> Seq<Seq<char>> {
    Seq::new(images.len(), |i: int| images[i].name@)
}

/// Takes the headers of the vbmeta images. A vbmeta partition whose image
/// has a footer is refused: patching only ever writes images that are
/// nothing but a vbmeta block. An image that is listed twice is taken
/// once, as it is listed first.
pub fn load_vbmeta_images(images: &Vec<LoadedImage>) -> (r: Result<Vec<NamedHeader>, OtaError>)
    ensures
        r is Ok <==> forall|i: int| 0 <= i < images@.len() ==> (#[trigger] images@[i]).footer is None,
        r matches Ok(headers) ==> {
            &&& distinct(header_names(headers@))
            &&& forall|n: Seq<char>|
                header_names(headers@).contains(n) <==> loaded_names(images@).contains(n)
            &&& forall|k: int|
                0 <= k < headers@.len() ==> (#[trigger] headers@[k]).header@ == images@[position_of(
                    loaded_names(images@),
                    headers@[k].name@,
                )].header@
        },
        r matches Err(e) ==> e matches OtaError::VbmetaHasFooter(n) && exists|i: int|
            0 <= i < images@.len() && (#[trigger] images@[i]).footer is Some && images@[i].name@
                == n@ && forall|j: int| 0 <= j < i ==> (#[trigger] images@[j]).footer is None,
{
    let ghost all = loaded_names(images@);
    let mut out: Vec<NamedHeader> = Vec::new();
    let ghost mut origin: Seq<int> = Seq::empty();
    let mut i: usize = 0;
    while i < images.len()
        invariant
            i <= images.len(),
            all == loaded_names(images@),
            forall|j: int| 0 <= j < i ==> (#[trigger] images@[j]).footer is None,
            distinct(header_names(out@)),
            forall|n: Seq<char>| header_names(out@).contains(n) <==> all.take(i as int).contains(n),
            origin.len() == out@.len(),
            forall|k: int|
                0 <= k < out@.len() ==> 0 <= #[trigger] origin[k] < i && all[origin[k]]
                    == out@[k].name@ && images@[origin[k]].header@ == out@[k].header@ && forall|
                    j: int,
                | 0 <= j < origin[k] ==> all[j] != out@[k].name@,
        decreases images.len() - i,
    {
        if images[i].footer.is_some() {
            return Err(OtaError::VbmetaHasFooter(images[i].name.clone()));
        }
        let ghost prior = header_names(out@);
        let ghost prior_out = out@;
        proof {
            lemma_take_next(all, i as int);
            lemma_contains_push(prior, all[i as int]);
        }
        match find_header(&out, images[i].name.as_str()) {
            Some(c) => {
                proof {
                    assert(header_names(out@)[c as int] == all[i as int]);
                    assert(prior.contains(all[i as int]));
                }
            },
            None => {
                out.push(
                    NamedHeader { name: images[i].name.clone(), header: images[i].header.duplicate() },
                );
                proof {
                    assert(header_names(out@) =~= prior.push(all[i as int]));
                    origin = origin.push(i as int);
                    assert forall|k: int| 0 <= k < out@.len() implies 0 <= #[trigger] origin[k] < i
                        + 1 && all[origin[k]] == out@[k].name@ && images@[origin[k]].header@
                        == out@[k].header@ && forall|j: int|
                        0 <= j < origin[k] ==> all[j] != out@[k].name@ by {
                        if k < prior_out.len() {
                            assert(out@[k] == prior_out[k]);
                        } else {
                            assert forall|j: int| 0 <= j < i implies all[j] != all[i as int] by {
                                if all[j] == all[i as int] {
                                    assert(all.take(i as int)[j] == all[i as int]);
                                    assert(all.take(i as int).contains(all[i as int]));
                                }
                            }
                        }
                    }
                    assert forall|a: int, b: int| 0 <= a < b < out@.len() implies header_names(
                        out@,
                    )[a] != header_names(out@)[b] by {
                        if b < prior.len() {
                            assert(prior[a] != prior[b]);
                        } else {
                            assert(prior[a] == header_names(out@)[a]);
                            assert(prior.contains(prior[a]));
                        }
                    }
                }
            },
        }
        proof {
            let now = header_names(out@);
            assert forall|n: Seq<char>| now.contains(n) <==> all.take(i + 1).contains(n) by {
                assert(prior.contains(n) <==> all.take(i as int).contains(n));
                if now == prior {
                    assert(prior.contains(all[i as int]));
                } else {
                    assert(now == prior.push(all[i as int]));
                }
                assert(now.contains(n) <==> prior.contains(n) || n == all[i as int]);
            }
        }
        i += 1;
    }
    proof {
        assert(all.take(i as int) =~= all);
        assert forall|k: int| 0 <= k < out@.len() implies (#[trigger] out@[k]).header@
            == images@[position_of(all, out@[k].name@)].header@ by {
            let o = origin[k];
            lemma_position_is(all, out@[k].name@, o);
        }
    }
    Ok(out)
}

/// A partition that must be covered by verified boot: a boot image or a
/// vbmeta image.
pub open spec fn is_critical(name: Seq<char>) -> bool {
    is_boot_name(name) || is_vbmeta_name(name)
}

/// A partition is covered where it is one of the vbmeta images or where a
/// descriptor of one of them is about it.
pub open spec fn is_covered(headers: Seq<NamedHeader>, name: Seq<char>) -> bool {
    header_names(headers).contains(name) || exists|i: int|
        0 <= i < headers.len() && (#[trigger] headers[i]).header@.mentions(name)
}

/// A required partition that must be covered and is not.
pub open spec fn is_unprotected(required: Seq<Seq<char>>, headers: Seq<NamedHeader>, name: Seq<char>) -> bool {
    required.contains(name) && is_critical(name) && !is_covered(headers, name)
}

fn covers(headers: &Vec<NamedHeader>, name: &str) -> (r: bool)
    ensures
        r == is_covered(headers@, name@),
{
    if find_header(headers, name).is_some() {
        proof {
            lemma_position_of(header_names(headers@), name@);
        }
        return true;
    }
    let mut i: usize = 0;
    while i < headers.len()
        invariant
            i <= headers.len(),
            forall|j: int| 0 <= j < i ==> !(#[trigger] headers@[j]).header@.mentions(name@),
        decreases headers.len() - i,
    {
        if headers[i].header.find_descriptor(name).is_some() {
            return true;
        }
        i += 1;
    }
    false
}

/// Checks that each boot image and each vbmeta image of the payload is
/// covered by a vbmeta image, and lists those that are not in ascending
/// order.
pub fn ensure_partitions_protected(required_images: &RequiredImages, vbmeta_headers: &Vec<NamedHeader>) -> (r:
    Result<(), OtaError>)
    ensures
        r is Ok <==> forall|n: Seq<char>| !is_unprotected(required_images@, vbmeta_headers@, n),
        r matches Err(e) ==> e matches OtaError::Unprotected(missing) && strictly_sorted(
            names_view(missing@),
        ) && forall|n: Seq<char>|
            names_view(missing@).contains(n) <==> is_unprotected(
                required_images@,
                vbmeta_headers@,
                n,
            ),
{
    let names = required_images.iter();
    let ghost req = names_view(names@);
    let mut missing: Vec<String> = Vec::new();
    let mut i: usize = 0;
    while i < names.len()
        invariant
            i <= names.len(),
            req == names_view(names@),
            forall|n: Seq<char>|
                names_view(missing@).contains(n) <==> is_unprotected(
                    req.take(i as int),
                    vbmeta_headers@,
                    n,
                ),
        decreases names.len() - i,
    {
        let ghost prior = names_view(missing@);
        let ghost name = req[i as int];
        proof {
            lemma_take_next(req, i as int);
            lemma_contains_push(prior, name);
        }
        let critical = RequiredImages::is_boot(names[i].as_str()) || RequiredImages::is_vbmeta(
            names[i].as_str(),
        );
        if critical && !covers(vbmeta_headers, names[i].as_str()) {
            missing.push(names[i].clone());
            assert(names_view(missing@) =~= prior.push(name));
        }
        proof {
            let now = names_view(missing@);
            assert forall|n: Seq<char>|
                now.contains(n) <==> is_unprotected(req.take(i + 1), vbmeta_headers@, n) by {
                assert(prior.contains(n) <==> is_unprotected(
                    req.take(i as int),
                    vbmeta_headers@,
                    n,
                ));
                assert(req.take(i + 1).contains(n) <==> req.take(i as int).contains(n) || n
                    == name);
                if is_critical(name) && !is_covered(vbmeta_headers@, name) {
                    assert(now.contains(n) <==> prior.contains(n) || n == name);
                } else {
                    assert(now == prior);
                }
            }
        }
        i += 1;
    }
    proof {
        assert(req.take(i as int) =~= req);
    }
    if missing.len() > 0 {
        proof {
            let m = names_view(missing@);
            assert(m.contains(m[0]));
        }
        Err(OtaError::Unprotected(sorted_unique(&missing)))
    } else {
        proof {
            assert forall|n: Seq<char>| !is_unprotected(req, vbmeta_headers@, n) by {
                if is_unprotected(req, vbmeta_headers@, n) {
                    let m = names_view(missing@);
                    assert(m.contains(n));
                    let w = choose|w: int| 0 <= w < m.len() && m[w] == n;
                }
            }
        }
        Ok(())
    }
}

/// The key that changed vbmeta headers are signed with: its encoded public
/// part and its size.
#[derive(Debug)]
pub struct AvbKey {
    pub public_key: Vec<u8>,
    pub size_bits: u32,
}

/// The signing algorithm that goes with a key of `bits` bits.
pub open spec fn algorithm_for(bits: u32) -> Option<AlgorithmType> {
    if bits == 2048 {
        Some(AlgorithmType::Sha256Rsa2048)
    } else if bits == 4096 {
        Some(AlgorithmType::Sha256Rsa4096)
    } else if bits == 8192 {
        Some(AlgorithmType::Sha256Rsa8192)
    } else {
        None
    }
}

/// Selects the signing algorithm from the size of the key.
pub fn algorithm_for_key(bits: u32) -> (r: Option<AlgorithmType>)
    ensures
        r == algorithm_for(bits),
{
    if bits == 2048 {
        Some(AlgorithmType::Sha256Rsa2048)
    } else if bits == 4096 {
        Some(AlgorithmType::Sha256Rsa4096)
    } else if bits == 8192 {
        Some(AlgorithmType::Sha256Rsa8192)
    } else {
        None
    }
}

/// A name with a header.
pub type Named = (Seq<char>, HeaderView);

/// The names and header views of a list of headers.
pub open spec fn named(headers: Seq<NamedHeader>) -> Seq<Named> {
    Seq::new(headers.len(), |i: int| (headers[i].name@, headers[i].header@))
}

/// The names of a list of named headers.
pub open spec fn names_of(list: Seq<Named>) -> Seq<Seq<char>> {
    Seq::new(list.len(), |i: int| list[i].0)
}

/// The names and dependencies of a patch order.
pub open spec fn order_view(order: Seq<PatchNode>) -> Seq<(Seq<char>, Seq<Seq<char>>)> {
    Seq::new(order.len(), |i: int| (order[i].name@, names_view(order[i].deps@)))
}

/// Why bringing the headers up to date fails.
pub enum Failure {
    Flags { name: Seq<char>, flags: u32 },
    NoHeader { name: Seq<char> },
    NoDescriptor { child: Seq<char>, parent: Seq<char> },
    MissingSelf { child: Seq<char> },
    Mismatch { child: Seq<char>, parent: Seq<char> },
    NotChain { child: Seq<char>, parent: Seq<char> },
    UnsupportedKey { bits: u32 },
}

/// The error that reports a failure.
pub open spec fn describes(e: OtaError, f: Failure) -> bool {
    match f {
        Failure::Flags { name, flags } => e matches OtaError::FlagsSet { name: n, flags: x } && n@
            == name && x == flags,
        Failure::NoHeader { name } => e matches OtaError::MissingHeader(n) && n@ == name,
        Failure::NoDescriptor { child, parent } => e matches OtaError::MissingDescriptor {
            child: c,
            parent: p,
        } && c@ == child && p@ == parent,
        Failure::MissingSelf { child } => e matches OtaError::MissingSelfDescriptor(c) && c@
            == child,
        Failure::Mismatch { child, parent } => e matches OtaError::DescriptorMismatch {
            child: c,
            parent: p,
        } && c@ == child && p@ == parent,
        Failure::NotChain { child, parent } => e matches OtaError::NotChainDescriptor {
            child: c,
            parent: p,
        } && c@ == child && p@ == parent,
        Failure::UnsupportedKey { bits } => e matches OtaError::UnsupportedKeySize(b) && b == bits,
    }
}

/// A header with its flags cleared.
pub open spec fn flags_cleared(h: HeaderView) -> HeaderView {
    HeaderView {
        required_libavb_version_major: h.required_libavb_version_major,
        required_libavb_version_minor: h.required_libavb_version_minor,
        algorithm_type: h.algorithm_type,
        hash: h.hash,
        signature: h.signature,
        public_key: h.public_key,
        public_key_metadata: h.public_key_metadata,
        descriptors: h.descriptors,
        rollback_index: h.rollback_index,
        flags: 0,
        rollback_index_location: h.rollback_index_location,
        release_string: h.release_string,
    }
}

/// A header made ready for signing: it names the algorithm and carries the
/// public key. Its hash and signature are those of before, until the caller
/// signs it.
pub open spec fn marked(h: HeaderView, key: Seq<u8>, algorithm: AlgorithmType) -> HeaderView {
    HeaderView {
        required_libavb_version_major: h.required_libavb_version_major,
        required_libavb_version_minor: h.required_libavb_version_minor,
        algorithm_type: algorithm,
        hash: h.hash,
        signature: h.signature,
        public_key: key,
        public_key_metadata: h.public_key_metadata,
        descriptors: h.descriptors,
        rollback_index: h.rollback_index,
        flags: h.flags,
        rollback_index_location: h.rollback_index_location,
        release_string: h.release_string,
    }
}

/// The header of a dependency: that of the vbmeta image of this name as it
/// stands, or else the one that the caller read from the image.
pub open spec fn child_header(vb: Seq<Named>, others: Seq<Named>, name: Seq<char>) -> Option<HeaderView> {
    let i = position_of(names_of(vb), name);
    let j = position_of(names_of(others), name);
    if i < vb.len() {
        Some(vb[i].1)
    } else if j < others.len() {
        Some(others[j].1)
    } else {
        None
    }
}

/// The parent after it has taken up one child.
pub open spec fn apply_child(parent: HeaderView, parent_name: Seq<char>, child: HeaderView, child_name: Seq<char>) -> Result<
    HeaderView,
    Failure,
> {
    match security_outcome(parent, child, child_name) {
        SecurityOutcome::Updated(ds) => Ok(metadata_update(with_descriptors(parent, ds), child)),
        SecurityOutcome::NoDescriptor => Err(
            Failure::NoDescriptor { child: child_name, parent: parent_name },
        ),
        SecurityOutcome::MissingSelf => Err(Failure::MissingSelf { child: child_name }),
        SecurityOutcome::Mismatch => Err(
            Failure::Mismatch { child: child_name, parent: parent_name },
        ),
        SecurityOutcome::NotChain => Err(
            Failure::NotChain { child: child_name, parent: parent_name },
        ),
    }
}

/// The parent after it has taken up its children, one after the other.
pub open spec fn apply_children(
    vb: Seq<Named>,
    others: Seq<Named>,
    parent: HeaderView,
    parent_name: Seq<char>,
    deps: Seq<Seq<char>>,
) -> Result<HeaderView, Failure>
    decreases deps.len(),
{
    if deps.len() == 0 {
        Ok(parent)
    } else {
        match apply_children(vb, others, parent, parent_name, deps.drop_last()) {
            Err(f) => Err(f),
            Ok(h) => match child_header(vb, others, deps.last()) {
                None => Err(Failure::NoHeader { name: deps.last() }),
                Some(c) => apply_child(h, parent_name, c, deps.last()),
            },
        }
    }
}

/// What becomes of the vbmeta image at index `i`: its header, and whether
/// it changed. Flags that are set are cleared where that is allowed, and
/// are an error where it is not. Then the header takes up its children. A
/// header that differs from what it was is made ready for signing.
pub open spec fn node_update(
    vb: Seq<Named>,
    others: Seq<Named>,
    i: int,
    deps: Seq<Seq<char>>,
    clear: bool,
    key: Seq<u8>,
    bits: u32,
) -> Result<(HeaderView, bool), Failure> {
    let name = vb[i].0;
    let snapshot = vb[i].1;
    if snapshot.flags != 0 && !clear {
        Err(Failure::Flags { name: name, flags: snapshot.flags })
    } else {
        let start = if snapshot.flags != 0 {
            flags_cleared(snapshot)
        } else {
            snapshot
        };
        match apply_children(vb, others, start, name, deps) {
            Err(f) => Err(f),
            Ok(h) => if h == snapshot {
                Ok((h, false))
            } else {
                match algorithm_for(bits) {
                    None => Err(Failure::UnsupportedKey { bits: bits }),
                    Some(a) => Ok((marked(h, key, a), true)),
                }
            },
        }
    }
}

/// The headers after some steps of the patch order, and the names of those
/// that changed.
pub struct Progress {
    pub headers: Seq<Named>,
    pub changed: Seq<Seq<char>>,
}

/// The headers after the whole patch order was gone through.
pub open spec fn apply_order(
    vb: Seq<Named>,
    others: Seq<Named>,
    order: Seq<(Seq<char>, Seq<Seq<char>>)>,
    clear: bool,
    key: Seq<u8>,
    bits: u32,
) -> Result<Progress, Failure>
    decreases order.len(),
{
    if order.len() == 0 {
        Ok(Progress { headers: vb, changed: Seq::empty() })
    } else {
        match apply_order(vb, others, order.drop_last(), clear, key, bits) {
            Err(f) => Err(f),
            Ok(p) => {
                let name = order.last().0;
                let i = position_of(names_of(p.headers), name);
                if i >= p.headers.len() {
                    Err(Failure::NoHeader { name: name })
                } else {
                    match node_update(p.headers, others, i, order.last().1, clear, key, bits) {
                        Err(f) => Err(f),
                        Ok(u) => Ok(
                            Progress {
                                headers: p.headers.update(i, (name, u.0)),
                                changed: if u.1 {
                                    p.changed.push(name)
                                } else {
                                    p.changed
                                },
                            },
                        ),
                    }
                }
            },
        }
    }
}

/// The update stopped at a step of the order: the headers and the pool are
/// what the steps before it made of them.
pub open spec fn stopped_in(
    vb: Seq<Named>,
    others: Seq<Named>,
    order: Seq<(Seq<char>, Seq<Seq<char>>)>,
    clear: bool,
    key: Seq<u8>,
    bits: u32,
    headers: Seq<Named>,
    pool_before: Pool,
    pool_after: Pool,
) -> bool {
    exists|k: int|
        0 <= k < order.len() && stopped_at(
            vb,
            others,
            order,
            clear,
            key,
            bits,
            headers,
            pool_before,
            pool_after,
            k,
        )
}

/// The update stopped at step `k` of the order.
pub open spec fn stopped_at(
    vb: Seq<Named>,
    others: Seq<Named>,
    order: Seq<(Seq<char>, Seq<Seq<char>>)>,
    clear: bool,
    key: Seq<u8>,
    bits: u32,
    headers: Seq<Named>,
    pool_before: Pool,
    pool_after: Pool,
    k: int,
) -> bool {
    &&& apply_order(vb, others, order.take(k + 1), clear, key, bits) is Err
    &&& apply_order(vb, others, order.take(k), clear, key, bits) matches Ok(p)
    &&& headers == p.headers
    &&& pool_after == replaced(pool_before, p.changed)
}

/// A dependency in the order that is no vbmeta image: its header has to be
/// read from its image.
pub open spec fn is_outside_dependency(headers: Seq<NamedHeader>, order: Seq<PatchNode>, name: Seq<char>) -> bool {
    !header_names(headers).contains(name) && exists|a: int|
        0 <= a < order.len() && names_view((#[trigger] order[a]).deps@).contains(name)
}

/// The images whose headers have to be read before the vbmeta headers can
/// be brought up to date: the dependencies that are no vbmeta images, each
/// of them once.
pub fn images_to_load(headers: &Vec<NamedHeader>, order: &Vec<PatchNode>) -> (r: Vec<String>)
    ensures
        distinct(names_view(r@)),
        forall|n: Seq<char>|
            names_view(r@).contains(n) <==> is_outside_dependency(headers@, order@, n),
{
    let mut out: Vec<String> = Vec::new();
    let mut a: usize = 0;
    proof {
        assert(order@.take(0) =~= Seq::empty());
    }
    while a < order.len()
        invariant
            a <= order.len(),
            distinct(names_view(out@)),
            forall|n: Seq<char>|
                names_view(out@).contains(n) <==> is_outside_dependency(
                    headers@,
                    order@.take(a as int),
                    n,
                ),
        decreases order.len() - a,
    {
        let deps = &order[a].deps;
        let ghost dv = names_view(deps@);
        let ghost start = names_view(out@);
        let mut k: usize = 0;
        proof {
            assert(dv.take(0) =~= Seq::empty());
        }
        while k < deps.len()
            invariant
                k <= deps.len(),
                dv == names_view(deps@),
                distinct(names_view(out@)),
                forall|n: Seq<char>|
                    names_view(out@).contains(n) <==> start.contains(n) || (dv.take(
                        k as int,
                    ).contains(n) && !header_names(headers@).contains(n)),
            decreases deps.len() - k,
        {
            let ghost prior = names_view(out@);
            let ghost dep = dv[k as int];
            proof {
                lemma_take_next(dv, k as int);
                lemma_contains_push(prior, dep);
                assert(deps@[k as int]@ == dep);
            }
            let vbmeta = find_header(headers, deps[k].as_str()).is_some();
            proof {
                lemma_position_of(header_names(headers@), dep);
            }
            if !vbmeta && !crate::text::contains_name(&out, deps[k].as_str()) {
                out.push(deps[k].clone());
                proof {
                    let now = names_view(out@);
                    assert(now =~= prior.push(dep));
                    assert forall|x: int, y: int| 0 <= x < y < now.len() implies now[x]
                        != now[y] by {
                        if y < prior.len() {
                            assert(prior[x] != prior[y]);
                        } else {
                            assert(prior[x] == now[x]);
                            assert(prior.contains(prior[x]));
                        }
                    }
                }
            }
            proof {
                let now = names_view(out@);
                assert forall|n: Seq<char>|
                    now.contains(n) <==> start.contains(n) || (dv.take(k + 1).contains(n)
                        && !header_names(headers@).contains(n)) by {
                    assert(prior.contains(n) <==> start.contains(n) || (dv.take(
                        k as int,
                    ).contains(n) && !header_names(headers@).contains(n)));
                    assert(dv.take(k + 1).contains(n) <==> dv.take(k as int).contains(n) || n
                        == dep);
                    if now == prior {
                    } else {
                        assert(now.contains(n) <==> prior.contains(n) || n == dep);
                    }
                }
            }
            k += 1;
        }
        proof {
            assert(dv.take(k as int) =~= dv);
            let now = names_view(out@);
            let before = order@.take(a as int);
            let after = order@.take(a + 1);
            assert(after =~= before.push(order@[a as int]));
            assert forall|n: Seq<char>|
                now.contains(n) <==> is_outside_dependency(headers@, after, n) by {
                assert(start.contains(n) <==> is_outside_dependency(headers@, before, n));
                if is_outside_dependency(headers@, before, n) {
                    let w = choose|w: int|
                        0 <= w < before.len() && names_view((#[trigger] before[w]).deps@).contains(
                            n,
                        );
                    assert(after[w] == before[w]);
                }
                if is_outside_dependency(headers@, after, n) {
                    let w = choose|w: int|
                        0 <= w < after.len() && names_view((#[trigger] after[w]).deps@).contains(n);
                    if w < before.len() {
                        assert(before[w] == after[w]);
                    } else {
                        assert(after[w] == order@[a as int]);
                    }
                }
                if dv.contains(n) && !header_names(headers@).contains(n) {
                    assert(after[a as int] == order@[a as int]);
                }
            }
        }
        a += 1;
    }
    proof {
        assert(order@.take(a as int) =~= order@);
    }
    out
}

/// Lets a parent take up one child: the child's descriptor or key, then
/// its properties and command lines.
pub fn update_from_child(
    parent_header: &mut Header,
    child_header: &Header,
    parent_name: &str,
    child_name: &str,
) -> (r: Result<(), OtaError>)
    ensures
        match apply_child(old(parent_header)@, parent_name@, child_header@, child_name@) {
            Ok(h) => r is Ok && final(parent_header)@ == h,
            Err(f) => final(parent_header)@ == old(parent_header)@ && (r matches Err(e)
                && describes(e, f)),
        },
{
    match update_security_descriptors(parent_header, child_header, parent_name, child_name) {
        Ok(()) => {
            update_metadata_descriptors(parent_header, child_header);
            Ok(())
        },
        Err(e) => Err(e),
    }
}

fn update_node(
    headers: &Vec<NamedHeader>,
    children: &Vec<NamedHeader>,
    i: usize,
    deps: &Vec<String>,
    clear_vbmeta_flags: bool,
    key: &AvbKey,
) -> (r: Result<(Header, bool), OtaError>)
    requires
        i < headers@.len(),
    ensures
        match node_update(
            named(headers@),
            named(children@),
            i as int,
            names_view(deps@),
            clear_vbmeta_flags,
            key.public_key@,
            key.size_bits,
        ) {
            Ok(u) => r matches Ok(v) && v.0@ == u.0 && v.1 == u.1,
            Err(f) => r matches Err(e) && describes(e, f),
        },
{
    let ghost vb = named(headers@);
    let ghost others = named(children@);
    let ghost dv = names_view(deps@);
    let ghost name = headers@[i as int].name@;
    let ghost snapshot = headers@[i as int].header@;
    let mut parent = headers[i].header.duplicate();
    assert(vb[i as int] == (name, snapshot));
    if parent.flags != 0 {
        if clear_vbmeta_flags {
            parent.flags = 0;
            assert(parent@ =~= flags_cleared(snapshot));
        } else {
            return Err(
                OtaError::FlagsSet { name: headers[i].name.clone(), flags: parent.flags },
            );
        }
    }
    let ghost start = parent@;
    let mut k: usize = 0;
    proof {
        assert(dv.take(0) =~= Seq::empty());
        assert(names_of(vb) =~= header_names(headers@));
        assert(names_of(others) =~= header_names(children@));
    }
    while k < deps.len()
        invariant
            k <= deps.len(),
            i < headers@.len(),
            vb == named(headers@),
            others == named(children@),
            dv == names_view(deps@),
            name == headers@[i as int].name@,
            names_of(vb) == header_names(headers@),
            names_of(others) == header_names(children@),
            vb[i as int] == (name, snapshot),
            !(snapshot.flags != 0 && !clear_vbmeta_flags),
            start == (if snapshot.flags != 0 {
                flags_cleared(snapshot)
            } else {
                snapshot
            }),
            apply_children(vb, others, start, name, dv.take(k as int)) == Ok::<
                HeaderView,
                Failure,
            >(parent@),
        decreases deps.len() - k,
    {
        let ghost before = parent@;
        let ghost dep_name = deps@[k as int]@;
        proof {
            assert(dv.take(k + 1).drop_last() =~= dv.take(k as int));
            assert(dv.take(k + 1).last() == dep_name);
            assert(apply_children(vb, others, start, name, dv.take(k + 1)) == (match child_header(
                vb,
                others,
                dep_name,
            ) {
                None => Err(Failure::NoHeader { name: dep_name }),
                Some(c) => apply_child(before, name, c, dep_name),
            }));
        }
        let dep = deps[k].as_str();
        let outcome = match find_header(headers, dep) {
            Some(c) => {
                assert(vb[c as int].1 == headers@[c as int].header@);
                assert(child_header(vb, others, dep_name) == Some(headers@[c as int].header@));
                update_from_child(&mut parent, &headers[c].header, headers[i].name.as_str(), dep)
            },
            None => match find_header(children, dep) {
                Some(c) => {
                    assert(others[c as int].1 == children@[c as int].header@);
                    assert(child_header(vb, others, dep_name) == Some(
                        children@[c as int].header@,
                    ));
                    update_from_child(
                        &mut parent,
                        &children[c].header,
                        headers[i].name.as_str(),
                        dep,
                    )
                },
                None => {
                    assert(child_header(vb, others, dep_name) is None);
                    Err(OtaError::MissingHeader(deps[k].clone()))
                },
            },
        };
        match outcome {
            Ok(()) => {},
            Err(e) => {
                proof {
                    let step = apply_children(vb, others, start, name, dv.take(k + 1));
                    assert(step is Err);
                    assert(describes(e, step->Err_0));
                    lemma_children_fail(vb, others, start, name, dv, k as int + 1);
                }
                return Err(e);
            },
        }
        k += 1;
    }
    proof {
        assert(dv.take(k as int) =~= dv);
    }
    if parent.same(&headers[i].header) {
        Ok((parent, false))
    } else {
        match algorithm_for_key(key.size_bits) {
            Some(a) => {
                let ghost h = parent@;
                parent.algorithm_type = a;
                parent.public_key = bytes_clone(&key.public_key);
                assert(parent@ =~= marked(h, key.public_key@, a));
                Ok((parent, true))
            },
            None => Err(OtaError::UnsupportedKeySize(key.size_bits)),
        }
    }
}

/// A failure with some of the children is the failure with all of them.
proof fn lemma_children_fail(
    vb: Seq<Named>,
    others: Seq<Named>,
    parent: HeaderView,
    parent_name: Seq<char>,
    deps: Seq<Seq<char>>,
    k: int,
)
    requires
        0 <= k <= deps.len(),
        apply_children(vb, others, parent, parent_name, deps.take(k)) is Err,
    ensures
        apply_children(vb, others, parent, parent_name, deps) == apply_children(
            vb,
            others,
            parent,
            parent_name,
            deps.take(k),
        ),
    decreases deps.len() - k,
{
    if k < deps.len() {
        assert(deps.take(k + 1).drop_last() =~= deps.take(k));
        lemma_children_fail(vb, others, parent, parent_name, deps, k + 1);
    } else {
        assert(deps.take(k) =~= deps);
    }
}

/// A failure with the first steps of an order is the failure with all of
/// it.
proof fn lemma_order_fail(
    vb: Seq<Named>,
    others: Seq<Named>,
    order: Seq<(Seq<char>, Seq<Seq<char>>)>,
    clear: bool,
    key: Seq<u8>,
    bits: u32,
    k: int,
)
    requires
        0 <= k <= order.len(),
        apply_order(vb, others, order.take(k), clear, key, bits) is Err,
    ensures
        apply_order(vb, others, order, clear, key, bits) == apply_order(
            vb,
            others,
            order.take(k),
            clear,
            key,
            bits,
        ),
    decreases order.len() - k,
{
    if k < order.len() {
        assert(order.take(k + 1).drop_last() =~= order.take(k));
        lemma_order_fail(vb, others, order, clear, key, bits, k + 1);
    } else {
        assert(order.take(k) =~= order);
    }
}

/// Brings the vbmeta headers up to date, in patch order.
///
/// * Header flags that are not zero make verified boot useless: they are
///   an error, or are set to zero where `clear_vbmeta_flags` allows it.
/// * The descriptors of a header are updated from each dependency that
///   `order` lists for it. The header of a dependency that is a vbmeta
///   image is the one in `headers`, as the steps before left it; for any
///   other image it is taken from `children`.
/// * A header that changed is made ready for signing with `key`, its image
///   is marked as modified in the pool, and its name is returned. An image
///   whose header is as before is left alone.
///
/// After an error the headers and the pool are as the steps before the
/// failing one left them.
pub fn update_vbmeta_headers(
    images: &mut ImagePool,
    headers: &mut Vec<NamedHeader>,
    children: &Vec<NamedHeader>,
    order: &Vec<PatchNode>,
    clear_vbmeta_flags: bool,
    key: &AvbKey,
) -> (r: Result<Vec<String>, OtaError>)
    ensures
        match apply_order(
            named(old(headers)@),
            named(children@),
            order_view(order@),
            clear_vbmeta_flags,
            key.public_key@,
            key.size_bits,
        ) {
            Ok(p) => (r matches Ok(changed) && names_view(changed@) == p.changed) && named(
                final(headers)@,
            ) == p.headers && final(images)@ == replaced(old(images)@, p.changed),
            Err(f) => (r matches Err(e) && describes(e, f)) && stopped_in(
                named(old(headers)@),
                named(children@),
                order_view(order@),
                clear_vbmeta_flags,
                key.public_key@,
                key.size_bits,
                named(final(headers)@),
                old(images)@,
                final(images)@,
            ),
        },
{
    let ghost vb0 = named(headers@);
    let ghost others = named(children@);
    let ghost ov = order_view(order@);
    let ghost pool0 = images@;
    let mut changed: Vec<String> = Vec::new();
    let mut k: usize = 0;
    proof {
        assert(ov.take(0) =~= Seq::empty());
        assert(names_view(changed@) =~= Seq::empty());
    }
    while k < order.len()
        invariant
            k <= order.len(),
            vb0 == named(old(headers)@),
            pool0 == old(images)@,
            others == named(children@),
            ov == order_view(order@),
            apply_order(
                vb0,
                others,
                ov.take(k as int),
                clear_vbmeta_flags,
                key.public_key@,
                key.size_bits,
            ) == Ok::<Progress, Failure>(
                Progress { headers: named(headers@), changed: names_view(changed@) },
            ),
            images@ == replaced(pool0, names_view(changed@)),
        decreases order.len() - k,
    {
        let ghost vb = named(headers@);
        let ghost cv = names_view(changed@);
        proof {
            assert(ov.take(k + 1).drop_last() =~= ov.take(k as int));
            assert(ov.take(k + 1).last() == (order@[k as int].name@, names_view(order@[k as int].deps@)));
            assert(names_of(vb) =~= header_names(headers@));
            assert(apply_order(
                vb0,
                others,
                ov.take(k as int),
                clear_vbmeta_flags,
                key.public_key@,
                key.size_bits,
            ) == Ok::<Progress, Failure>(Progress { headers: vb, changed: cv }));
        }
        let ghost node_name = order@[k as int].name@;
        let ghost node_deps = names_view(order@[k as int].deps@);
        let ghost step = apply_order(
            vb0,
            others,
            ov.take(k + 1),
            clear_vbmeta_flags,
            key.public_key@,
            key.size_bits,
        );
        let ghost at = position_of(names_of(vb), node_name);
        proof {
            assert(step == (if at >= vb.len() {
                Err::<Progress, Failure>(Failure::NoHeader { name: node_name })
            } else {
                match node_update(
                    vb,
                    others,
                    at,
                    node_deps,
                    clear_vbmeta_flags,
                    key.public_key@,
                    key.size_bits,
                ) {
                    Err(f) => Err(f),
                    Ok(u) => Ok(
                        Progress {
                            headers: vb.update(at, (node_name, u.0)),
                            changed: if u.1 {
                                cv.push(node_name)
                            } else {
                                cv
                            },
                        },
                    ),
                }
            }));
        }
        let i = match find_header(headers, order[k].name.as_str()) {
            Some(i) => i,
            None => {
                proof {
                    assert(step is Err);
                    assert(stopped_at(
                        vb0,
                        others,
                        ov,
                        clear_vbmeta_flags,
                        key.public_key@,
                        key.size_bits,
                        named(headers@),
                        pool0,
                        images@,
                        k as int,
                    ));
                    lemma_order_fail(
                        vb0,
                        others,
                        ov,
                        clear_vbmeta_flags,
                        key.public_key@,
                        key.size_bits,
                        k as int + 1,
                    );
                }
                return Err(OtaError::MissingHeader(order[k].name.clone()));
            },
        };
        match update_node(headers, children, i, &order[k].deps, clear_vbmeta_flags, key) {
            Ok((header, is_changed)) => {
                let name = headers[i].name.clone();
                let ghost hv = header@;
                headers.set(i, NamedHeader { name, header });
                proof {
                    assert(named(headers@) =~= vb.update(i as int, (order@[k as int].name@, hv)));
                }
                if is_changed {
                    let _ = images.replace(order[k].name.as_str());
                    changed.push(order[k].name.clone());
                    proof {
                        assert(names_view(changed@) =~= cv.push(order@[k as int].name@));
                        assert(names_view(changed@).drop_last() =~= cv);
                    }
                }
            },
            Err(e) => {
                proof {
                    assert(step is Err);
                    assert(describes(e, step->Err_0));
                    assert(stopped_at(
                        vb0,
                        others,
                        ov,
                        clear_vbmeta_flags,
                        key.public_key@,
                        key.size_bits,
                        named(headers@),
                        pool0,
                        images@,
                        k as int,
                    ));
                    lemma_order_fail(
                        vb0,
                        others,
                        ov,
                        clear_vbmeta_flags,
                        key.public_key@,
                        key.size_bits,
                        k as int + 1,
                    );
                }
                return Err(e);
            },
        }
        k += 1;
    }
    proof {
        assert(ov.take(k as int) =~= ov);
    }
    Ok(changed)
}

/// A header that a step of the patch order changed carries the key that it
/// is to be signed with and names the algorithm of that key. A header that
/// the step did not change is as it was.
pub proof fn lemma_changed_header_carries_key(
    vb: Seq<Named>,
    others: Seq<Named>,
    i: int,
    deps: Seq<Seq<char>>,
    clear: bool,
    key: Seq<u8>,
    bits: u32,
)
    requires
        0 <= i < vb.len(),
        node_update(vb, others, i, deps, clear, key, bits) is Ok,
    ensures
        ({
            let u = node_update(vb, others, i, deps, clear, key, bits)->Ok_0;
            &&& u.1 ==> u.0.public_key == key && algorithm_for(bits) == Some(u.0.algorithm_type)
            &&& !u.1 ==> u.0 == vb[i].1
        }),
{
}

/// A vbmeta image without dependencies is left as it is where its flags
/// are zero. Where they are not, they are cleared and nothing else of the
/// header is touched before it is made ready for signing.
pub proof fn lemma_header_without_dependencies(
    vb: Seq<Named>,
    others: Seq<Named>,
    i: int,
    clear: bool,
    key: Seq<u8>,
    bits: u32,
)
    requires
        0 <= i < vb.len(),
        node_update(vb, others, i, Seq::empty(), clear, key, bits) is Ok,
    ensures
        ({
            let u = node_update(vb, others, i, Seq::empty(), clear, key, bits)->Ok_0;
            if vb[i].1.flags == 0 {
                !u.1 && u.0 == vb[i].1
            } else {
                clear && u.1 && algorithm_for(bits) is Some && u.0 == marked(
                    flags_cleared(vb[i].1),
                    key,
                    algorithm_for(bits)->Some_0,
                )
            }
        }),
{
    let snapshot = vb[i].1;
    if snapshot.flags != 0 {
        assert(flags_cleared(snapshot).flags != snapshot.flags);
    }
}

/// After the whole patch order, the header of every image that is listed
/// as changed carries the signing key, and the header of every other image
/// is the one that was handed in.
pub proof fn lemma_patched_headers(
    vb: Seq<Named>,
    others: Seq<Named>,
    order: Seq<(Seq<char>, Seq<Seq<char>>)>,
    clear: bool,
    key: Seq<u8>,
    bits: u32,
)
    requires
        distinct(names_of(vb)),
        apply_order(vb, others, order, clear, key, bits) is Ok,
    ensures
        ({
            let p = apply_order(vb, others, order, clear, key, bits)->Ok_0;
            &&& names_of(p.headers) == names_of(vb)
            &&& forall|j: int|
                0 <= j < vb.len() ==> if p.changed.contains(#[trigger] vb[j].0) {
                    p.headers[j].1.public_key == key
                } else {
                    p.headers[j].1 == vb[j].1
                }
        }),
    decreases order.len(),
{
    let p = apply_order(vb, others, order, clear, key, bits)->Ok_0;
    if order.len() == 0 {
        assert(names_of(p.headers) =~= names_of(vb));
    } else {
        let q = apply_order(vb, others, order.drop_last(), clear, key, bits)->Ok_0;
        lemma_patched_headers(vb, others, order.drop_last(), clear, key, bits);
        let name = order.last().0;
        let names = names_of(vb);
        let i = position_of(names_of(q.headers), name);
        lemma_position_of(names, name);
        let u = node_update(q.headers, others, i, order.last().1, clear, key, bits)->Ok_0;
        lemma_changed_header_carries_key(q.headers, others, i, order.last().1, clear, key, bits);
        assert(names[i] == name);
        assert(names_of(q.headers)[i] == q.headers[i].0);
        assert(names_of(p.headers) =~= names);
        lemma_contains_push(q.changed, name);
        assert forall|j: int| 0 <= j < vb.len() implies if p.changed.contains(
            #[trigger] vb[j].0,
        ) {
            p.headers[j].1.public_key == key
        } else {
            p.headers[j].1 == vb[j].1
        } by {
            assert(names[j] == vb[j].0);
            if j != i {
                if j < i {
                    assert(names[j] != names[i]);
                } else {
                    assert(names[i] != names[j]);
                }
            }
        }
    }
}

/// The order names the image as one of its steps.
pub open spec fn is_step(order: Seq<(Seq<char>, Seq<Seq<char>>)>, name: Seq<char>) -> bool {
    exists|a: int| 0 <= a < order.len() && (#[trigger] order[a]).0 == name
}

/// Only images that the order names are touched: every other header is the
/// one that was handed in, and no other image is listed as changed.
pub proof fn lemma_only_steps_change(
    vb: Seq<Named>,
    others: Seq<Named>,
    order: Seq<(Seq<char>, Seq<Seq<char>>)>,
    clear: bool,
    key: Seq<u8>,
    bits: u32,
)
    requires
        apply_order(vb, others, order, clear, key, bits) is Ok,
    ensures
        ({
            let p = apply_order(vb, others, order, clear, key, bits)->Ok_0;
            &&& names_of(p.headers) == names_of(vb)
            &&& forall|n: Seq<char>| #[trigger] p.changed.contains(n) ==> is_step(order, n)
            &&& forall|j: int|
                0 <= j < vb.len() && !is_step(order, (#[trigger] vb[j]).0) ==> p.headers[j]
                    == vb[j]
        }),
    decreases order.len(),
{
    let p = apply_order(vb, others, order, clear, key, bits)->Ok_0;
    if order.len() == 0 {
        assert(names_of(p.headers) =~= names_of(vb));
    } else {
        let init = order.drop_last();
        let q = apply_order(vb, others, init, clear, key, bits)->Ok_0;
        lemma_only_steps_change(vb, others, init, clear, key, bits);
        let name = order.last().0;
        let i = position_of(names_of(q.headers), name);
        lemma_position_of(names_of(vb), name);
        assert(names_of(q.headers)[i] == q.headers[i].0);
        assert(names_of(p.headers) =~= names_of(vb));
        assert(order[order.len() - 1].0 == name);
        assert(is_step(order, name));
        lemma_contains_push(q.changed, name);
        assert forall|n: Seq<char>| is_step(init, n) implies is_step(order, n) by {
            let a = choose|a: int| 0 <= a < init.len() && (#[trigger] init[a]).0 == n;
            assert(order[a] == init[a]);
        }
        assert forall|j: int|
            0 <= j < vb.len() && !is_step(order, (#[trigger] vb[j]).0) implies p.headers[j]
            == vb[j] by {
            assert(names_of(vb)[j] == vb[j].0);
            assert(!is_step(init, vb[j].0));
            assert(q.headers[j] == vb[j]);
            assert(j != i);
        }
        assert forall|n: Seq<char>| #[trigger] p.changed.contains(n) implies is_step(
            order,
            n,
        ) by {
            if n != name {
                assert(q.changed.contains(n));
                assert(is_step(init, n));
            }
        }
    }
}

/// Where the update stops at a step, every image that no step before it
/// names is as it was: its header is the one that was handed in, and its
/// place in the pool is unchanged. That holds of the image of the failing
/// step and of all that follow it, unless an earlier step names them too.
pub proof fn lemma_failing_step_leaves_the_rest(
    vb: Seq<Named>,
    others: Seq<Named>,
    order: Seq<(Seq<char>, Seq<Seq<char>>)>,
    clear: bool,
    key: Seq<u8>,
    bits: u32,
    headers: Seq<Named>,
    pool_before: Pool,
    pool_after: Pool,
    k: int,
    j: int,
)
    requires
        0 <= k < order.len(),
        stopped_at(vb, others, order, clear, key, bits, headers, pool_before, pool_after, k),
        0 <= j < vb.len(),
        !is_step(order.take(k), vb[j].0),
    ensures
        headers[j] == vb[j],
        pool_after.dom() == pool_before.dom(),
        pool_before.dom().contains(vb[j].0) ==> pool_after[vb[j].0] == pool_before[vb[j].0],
{
    let p = apply_order(vb, others, order.take(k), clear, key, bits)->Ok_0;
    lemma_only_steps_change(vb, others, order.take(k), clear, key, bits);
    lemma_replaced(pool_before, p.changed);
}

/// An image that the order only ever names without dependencies ends in one
/// of two ways. Either its header is the one that was handed in, and it is
/// not listed as changed. Or its flags were set and are cleared, nothing
/// else of the header is touched before it is made ready for signing, and
/// it is listed as changed.
pub proof fn lemma_images_without_dependencies(
    vb: Seq<Named>,
    others: Seq<Named>,
    order: Seq<(Seq<char>, Seq<Seq<char>>)>,
    clear: bool,
    key: Seq<u8>,
    bits: u32,
    j: int,
)
    requires
        distinct(names_of(vb)),
        apply_order(vb, others, order, clear, key, bits) is Ok,
        0 <= j < vb.len(),
        forall|a: int|
            0 <= a < order.len() && (#[trigger] order[a]).0 == vb[j].0 ==> order[a].1.len() == 0,
    ensures
        ({
            let p = apply_order(vb, others, order, clear, key, bits)->Ok_0;
            if p.changed.contains(vb[j].0) {
                vb[j].1.flags != 0 && clear && algorithm_for(bits) is Some && p.headers[j].1
                    == marked(flags_cleared(vb[j].1), key, algorithm_for(bits)->Some_0)
            } else {
                p.headers[j].1 == vb[j].1
            }
        }),
    decreases order.len(),
{
    let p = apply_order(vb, others, order, clear, key, bits)->Ok_0;
    if order.len() > 0 {
        let init = order.drop_last();
        let q = apply_order(vb, others, init, clear, key, bits)->Ok_0;
        assert forall|a: int|
            0 <= a < init.len() && (#[trigger] init[a]).0 == vb[j].0 implies init[a].1.len()
            == 0 by {
            assert(init[a] == order[a]);
        }
        lemma_images_without_dependencies(vb, others, init, clear, key, bits, j);
        lemma_patched_headers(vb, others, init, clear, key, bits);
        let name = order.last().0;
        let names = names_of(vb);
        let i = position_of(names, name);
        lemma_position_of(names, name);
        assert(names[i] == name);
        assert(names[j] == vb[j].0);
        lemma_contains_push(q.changed, name);
        if name == vb[j].0 {
            if i < j {
                assert(names[i] != names[j]);
            } else if j < i {
                assert(names[j] != names[i]);
            }
            assert(i == j);
            assert(order[order.len() - 1].1.len() == 0);
            assert(order.last().1 =~= Seq::<Seq<char>>::empty());
            assert(q.headers[j].0 == names_of(q.headers)[j]);
            lemma_header_without_dependencies(q.headers, others, j, clear, key, bits);
        }
    }
}

/// An unsigned child that a parent takes up leaves its own descriptor in
/// the parent, at the place of the parent's descriptor for it.
pub proof fn lemma_unsigned_child_hands_over_descriptor(
    parent: HeaderView,
    parent_name: Seq<char>,
    child: HeaderView,
    child_name: Seq<char>,
)
    requires
        !child.is_signed(),
        apply_child(parent, parent_name, child, child_name) is Ok,
    ensures
        ({
            let h = apply_child(parent, parent_name, child, child_name)->Ok_0;
            let i = parent.descriptor_index(child_name);
            &&& 0 <= i < parent.descriptors.len() <= h.descriptors.len()
            &&& h.descriptors[i] == child.descriptors[child.descriptor_index(child_name)]
        }),
{
    let i = parent.descriptor_index(child_name);
    let cd = child.descriptors[child.descriptor_index(child_name)];
    crate::avb::lemma_first_about(parent.descriptors, child_name);
    assert(i < parent.descriptors.len());
    let ds = parent.descriptors.update(i, cd);
    crate::vbmeta::lemma_merge_keeps_other_descriptors(ds, child.descriptors, i);
}

/// A signed child that a parent takes up leaves its public key in the
/// parent's chain descriptor for it, and nothing else of the parent is
/// touched.
pub proof fn lemma_signed_child_hands_over_key(
    parent: HeaderView,
    parent_name: Seq<char>,
    child: HeaderView,
    child_name: Seq<char>,
)
    requires
        child.is_signed(),
        apply_child(parent, parent_name, child, child_name) is Ok,
    ensures
        ({
            let h = apply_child(parent, parent_name, child, child_name)->Ok_0;
            let i = parent.descriptor_index(child_name);
            &&& 0 <= i < parent.descriptors.len()
            &&& h.descriptors[i] matches crate::avb::DescriptorView::ChainPartition(c)
            &&& c.public_key == child.public_key
            &&& h == with_descriptors(parent, parent.descriptors.update(i, h.descriptors[i]))
        }),
{
    let i = parent.descriptor_index(child_name);
    crate::avb::lemma_first_about(parent.descriptors, child_name);
    assert(i < parent.descriptors.len());
}

/// A chained pair of vbmeta images: where the header of the child changes,
/// the parent that is updated after it holds, in its chain descriptor for
/// the child, the key that the child is signed with, and the child's header
/// is the one that its own step made.
pub proof fn lemma_chain_takes_new_key(
    vb: Seq<Named>,
    others: Seq<Named>,
    ic: int,
    ip: int,
    child_deps: Seq<Seq<char>>,
    clear: bool,
    key: Seq<u8>,
    bits: u32,
)
    requires
        distinct(names_of(vb)),
        0 <= ic < vb.len(),
        0 <= ip < vb.len(),
        ic != ip,
        key.len() > 0,
        node_update(vb, others, ic, child_deps, clear, key, bits) matches Ok(u) && u.1,
        vb[ip].1.flags == 0,
        vb[ip].1.mentions(vb[ic].0),
        vb[ip].1.descriptors[vb[ip].1.descriptor_index(vb[ic].0)] is ChainPartition,
    ensures
        ({
            let order = seq![(vb[ic].0, child_deps), (vb[ip].0, seq![vb[ic].0])];
            let u = node_update(vb, others, ic, child_deps, clear, key, bits)->Ok_0;
            let i = vb[ip].1.descriptor_index(vb[ic].0);
            &&& apply_order(vb, others, order, clear, key, bits) matches Ok(p)
            &&& p.headers[ic].1 == u.0
            &&& p.headers[ic].1.public_key == key
            &&& p.changed.contains(vb[ic].0)
            &&& p.headers[ip].1.descriptors[i] matches crate::avb::DescriptorView::ChainPartition(
                c,
            )
            &&& c.public_key == key
        }),
{
    let child = vb[ic].0;
    let parent = vb[ip].0;
    let order = seq![(child, child_deps), (parent, seq![child])];
    let u = node_update(vb, others, ic, child_deps, clear, key, bits)->Ok_0;
    let names = names_of(vb);
    assert(names[ic] == child && names[ip] == parent);
    if ic < ip {
        assert(names[ic] != names[ip]);
    } else {
        assert(names[ip] != names[ic]);
    }
    let first = order.drop_last();
    assert(first =~= seq![(child, child_deps)]);
    assert(first.last() == (child, child_deps));
    assert(first.drop_last() =~= Seq::empty());
    assert(apply_order(vb, others, first.drop_last(), clear, key, bits) == Ok::<
        Progress,
        Failure,
    >(Progress { headers: vb, changed: Seq::empty() }));
    lemma_position_is_distinct(names, ic);
    let q = Progress {
        headers: vb.update(ic, (child, u.0)),
        changed: Seq::<Seq<char>>::empty().push(child),
    };
    assert(apply_order(vb, others, first, clear, key, bits) == Ok::<Progress, Failure>(q));
    assert(order.last() == (parent, seq![child]));
    let qn = names_of(q.headers);
    assert(qn =~= names);
    lemma_position_is_distinct(names, ip);
    let deps = seq![child];
    assert(deps.drop_last() =~= Seq::<Seq<char>>::empty());
    assert(deps.last() == child);
    let snapshot = q.headers[ip].1;
    assert(snapshot == vb[ip].1);
    assert(apply_children(q.headers, others, snapshot, parent, deps.drop_last()) == Ok::<
        HeaderView,
        Failure,
    >(snapshot));
    assert(child_header(q.headers, others, child) == Some(u.0));
    let taken = apply_child(snapshot, parent, u.0, child);
    assert(u.0.public_key == key);
    assert(u.0.is_signed());
    assert(taken is Ok);
    lemma_signed_child_hands_over_key(snapshot, parent, u.0, child);
    assert(apply_children(q.headers, others, snapshot, parent, deps) == taken);
    let i = snapshot.descriptor_index(child);
    let h = taken->Ok_0;
    let a = algorithm_for(bits)->Some_0;
    assert(marked(h, key, a).descriptors == h.descriptors);
    assert(algorithm_for(bits) is Some);
    let second = node_update(q.headers, others, ip, deps, clear, key, bits);
    assert(second == (if h == snapshot {
        Ok::<(HeaderView, bool), Failure>((h, false))
    } else {
        Ok((marked(h, key, a), true))
    }));
    let u2 = second->Ok_0;
    assert(u2.0.descriptors == h.descriptors);
    assert(order.drop_last() == first);
    assert(position_of(qn, parent) == ip);
    let p = Progress {
        headers: q.headers.update(ip, (parent, u2.0)),
        changed: if u2.1 {
            q.changed.push(parent)
        } else {
            q.changed
        },
    };
    assert(apply_order(vb, others, order, clear, key, bits) == Ok::<Progress, Failure>(p));
    assert(p.headers[ic] == q.headers[ic]);
    assert(q.headers[ic] == (child, u.0));
    assert(q.changed[0] == child);
    assert(q.changed.contains(child));
    lemma_contains_push(q.changed, parent);
    assert(p.changed.contains(child));
    assert(p.headers[ip].1.descriptors[i] == h.descriptors[i]);
}

/// In a list without repetitions each name stands at its own position.
proof fn lemma_position_is_distinct(names: Seq<Seq<char>>, k: int)
    requires
        distinct(names),
        0 <= k < names.len(),
    ensures
        position_of(names, names[k]) == k,
{
    assert forall|i: int| 0 <= i < k implies names[i] != names[k] by {}
    lemma_position_is(names, names[k], k);
}

} // verus!
