//! The dependency graph of the vbmeta images and the order in which they
//! are patched.
//!
//! A vbmeta image depends on each partition that one of its descriptors is
//! about, where that partition is itself a vbmeta image or has an image in
//! the pool that was modified. Images are patched
//! children first, so that a parent takes up what its children became.

use vstd::prelude::*;
use vstd::string::*;
use topological_sort::TopologicalSort;
use crate::avb::{DescriptorView, Header};
use crate::error::OtaError;
use crate::pool::{ImagePool, InputFileState};
use crate::text::{
    contains_name, distinct, lemma_contains_push, lemma_position_is, lemma_position_of,
    lemma_take_next, names_view,
    position_of, sorted_unique,
    str_eq, strictly_sorted,
};
use crate::topo::{
    is_ready, pending, topo_add_dependency, topo_insert, topo_is_empty, topo_new, topo_pop,
    with_dependency, Dependents,
};

verus! {

/// The header of a vbmeta image, with the name of its partition.
#[derive(Debug)]
pub struct NamedHeader {
    pub name: String,
    pub header: Header,
}

/// A vbmeta image in the patch order, with the partitions it depends on.
#[derive(Debug)]
pub struct PatchNode {
    pub name: String,
    pub deps: Vec<String>,
}

pub type Pool = Map<Seq<char>, InputFileState>;

/// The names of a list of headers.
pub open spec fn header_names(headers: Seq<NamedHeader>) -> Seq<Seq<char>> {
    Seq::new(headers.len(), |i: int| headers[i].name@)
}

/// The names of a patch order.
pub open spec fn node_names(order: Seq<PatchNode>) -> Seq<Seq<char>> {
    Seq::new(order.len(), |i: int| order[i].name@)
}

/// Whether a partition that a descriptor is about counts as a dependency:
/// the pool holds it, and it is a vbmeta image or was modified. An image
/// that was only extracted, or that the user supplied and no phase patched,
/// does not count.
pub open spec fn counts(pool: Pool, names: Seq<Seq<char>>, child: Seq<char>) -> bool {
    pool.dom().contains(child) && (names.contains(child) || pool[child]
        == InputFileState::Modified)
}

/// The header at index `parent` depends on the partition `child`.
pub open spec fn depends_on(pool: Pool, headers: Seq<NamedHeader>, parent: int, child: Seq<char>) -> bool {
    0 <= parent < headers.len() && headers[parent].header@.mentions(child) && counts(
        pool,
        header_names(headers),
        child,
    )
}

/// The vbmeta image `parent` depends on the partition `child`.
pub open spec fn parent_of(pool: Pool, headers: Seq<NamedHeader>, parent: Seq<char>, child: Seq<char>) -> bool {
    exists|i: int| #[trigger] depends_on(pool, headers, i, child) && headers[i].name@ == parent
}

/// The dependencies among the partitions that `descriptors` are about, in
/// the order of their first descriptor, each of them once.
pub open spec fn deps_of(pool: Pool, names: Seq<Seq<char>>, descriptors: Seq<DescriptorView>) -> Seq<Seq<char>>
    decreases descriptors.len(),
{
    if descriptors.len() == 0 {
        Seq::empty()
    } else {
        let rest = deps_of(pool, names, descriptors.drop_last());
        match descriptors.last().partition_name() {
            Some(n) => if counts(pool, names, n) && !rest.contains(n) {
                rest.push(n)
            } else {
                rest
            },
            None => rest,
        }
    }
}

/// A root is a vbmeta image that no vbmeta image depends on.
pub open spec fn is_root(pool: Pool, headers: Seq<NamedHeader>, name: Seq<char>) -> bool {
    header_names(headers).contains(name) && forall|i: int| !#[trigger] depends_on(pool, headers, i, name)
}

/// More than one vbmeta image is a root.
pub open spec fn many_roots(pool: Pool, headers: Seq<NamedHeader>) -> bool {
    exists|a: Seq<char>, b: Seq<char>|
        a != b && #[trigger] is_root(pool, headers, a) && #[trigger] is_root(pool, headers, b)
}

/// `order` lists every vbmeta image once, each after all the vbmeta images
/// that it depends on.
pub open spec fn children_first(pool: Pool, headers: Seq<NamedHeader>, order: Seq<Seq<char>>) -> bool {
    &&& distinct(order)
    &&& forall|n: Seq<char>| order.contains(n) <==> header_names(headers).contains(n)
    &&& forall|a: int, b: int|
        0 <= a < order.len() && 0 <= b < order.len() && parent_of(
            pool,
            headers,
            #[trigger] order[a],
            #[trigger] order[b],
        ) ==> b < a
}

/// `node` names a vbmeta image and lists what that image depends on.
pub open spec fn is_node(pool: Pool, headers: Seq<NamedHeader>, node: PatchNode) -> bool {
    exists|i: int|
        0 <= i < headers.len() && (#[trigger] headers[i]).name@ == node.name@ && names_view(
            node.deps@,
        ) == deps_of(pool, header_names(headers), headers[i].header@.descriptors)
}

/// The vbmeta images can be put in an order with children first: they do
/// not depend on each other in a circle.
pub open spec fn acyclic(pool: Pool, headers: Seq<NamedHeader>) -> bool {
    exists|order: Seq<Seq<char>>| children_first(pool, headers, order)
}

/// `deps_of` lists exactly the partitions that count and that a descriptor
/// is about, and none of them twice.
pub proof fn lemma_deps_of(pool: Pool, names: Seq<Seq<char>>, descriptors: Seq<DescriptorView>)
    ensures
        distinct(deps_of(pool, names, descriptors)),
        forall|c: Seq<char>| #[trigger]
            deps_of(pool, names, descriptors).contains(c) <==> counts(pool, names, c) && exists|
                j: int,
            |
                0 <= j < descriptors.len() && (#[trigger] descriptors[j]).partition_name() == Some(
                    c,
                ),
    decreases descriptors.len(),
{
    let out = deps_of(pool, names, descriptors);
    if descriptors.len() > 0 {
        let init = descriptors.drop_last();
        let rest = deps_of(pool, names, init);
        let last = descriptors.last();
        lemma_deps_of(pool, names, init);
        lemma_contains_push(rest, last.partition_name().unwrap());
        assert forall|c: Seq<char>| #[trigger]
            out.contains(c) <==> counts(pool, names, c) && exists|j: int|
                0 <= j < descriptors.len() && (#[trigger] descriptors[j]).partition_name() == Some(
                    c,
                ) by {
            if rest.contains(c) {
                let j = choose|j: int|
                    0 <= j < init.len() && (#[trigger] init[j]).partition_name() == Some(c);
                assert(descriptors[j].partition_name() == Some(c));
            }
            if counts(pool, names, c) && exists|j: int|
                0 <= j < descriptors.len() && (#[trigger] descriptors[j]).partition_name() == Some(
                    c,
                ) {
                let j = choose|j: int|
                    0 <= j < descriptors.len() && (#[trigger] descriptors[j]).partition_name()
                        == Some(c);
                if j < init.len() {
                    assert(init[j].partition_name() == Some(c));
                    assert(rest.contains(c));
                } else {
                    assert(last.partition_name() == Some(c));
                }
            }
            if out.contains(c) && !rest.contains(c) {
                assert(last.partition_name() == Some(c));
                assert(descriptors[descriptors.len() - 1].partition_name() == Some(c));
            }
        }
        assert forall|i: int, j: int| 0 <= i < j < out.len() implies out[i] != out[j] by {
            if j < rest.len() {
                assert(rest[i] != rest[j]);
            } else {
                assert(rest[i] == out[i]);
                assert(rest.contains(out[i]));
            }
        }
    }
}

/// The index of the first header of this name.
pub fn find_header(headers: &Vec<NamedHeader>, name: &str) -> (r: Option<usize>)
    ensures
        match r {
            Some(i) => i < headers@.len() && headers@[i as int].name@ == name@ && i == position_of(
                header_names(headers@),
                name@,
            ),
            None => !header_names(headers@).contains(name@) && position_of(
                header_names(headers@),
                name@,
            ) == headers@.len(),
        },
{
    let mut i: usize = 0;
    while i < headers.len()
        invariant
            i <= headers.len(),
            forall|j: int| 0 <= j < i ==> header_names(headers@)[j] != name@,
        decreases headers.len() - i,
    {
        if str_eq(headers[i].name.as_str(), name) {
            proof {
                lemma_position_is(header_names(headers@), name@, i as int);
            }
            return Some(i);
        }
        i += 1;
    }
    proof {
        lemma_position_is(header_names(headers@), name@, i as int);
    }
    None
}

/// Whether no two headers have the same name.
pub fn names_are_distinct(headers: &Vec<NamedHeader>) -> (r: bool)
    ensures
        r == distinct(header_names(headers@)),
{
    let ghost names = header_names(headers@);
    let mut j: usize = 0;
    while j < headers.len()
        invariant
            j <= headers.len(),
            names == header_names(headers@),
            forall|a: int, b: int| 0 <= a < b < j ==> names[a] != names[b],
        decreases headers.len() - j,
    {
        match find_header(headers, headers[j].name.as_str()) {
            Some(i) => {
                if i < j {
                    assert(names[i as int] == names[j as int]);
                    return false;
                }
                proof {
                    lemma_position_of(names, names[j as int]);
                    assert(i == j);
                }
            },
            None => {
                assert(names[j as int] == headers@[j as int].name@);
                assert(names.contains(names[j as int]));
            },
        }
        j += 1;
    }
    true
}

/// Whether a partition that a descriptor is about counts as a dependency.
fn counts_as_dependency(pool: &ImagePool, headers: &Vec<NamedHeader>, child: &str) -> (r: bool)
    ensures
        r == counts(pool@, header_names(headers@), child@),
{
    match pool.state(child) {
        Some(state) => {
            if state == InputFileState::Modified {
                true
            } else {
                let found = find_header(headers, child);
                proof {
                    if found is Some {
                        assert(header_names(headers@)[found.unwrap() as int] == child@);
                    }
                }
                found.is_some()
            }
        },
        None => false,
    }
}

/// The partitions that a header depends on.
fn dependencies(pool: &ImagePool, headers: &Vec<NamedHeader>, header: &Header) -> (r: Vec<String>)
    ensures
        names_view(r@) == deps_of(pool@, header_names(headers@), header@.descriptors),
{
    let ghost ds = header@.descriptors;
    let ghost names = header_names(headers@);
    let mut out: Vec<String> = Vec::new();
    let mut k: usize = 0;
    proof {
        assert(ds.take(0) =~= Seq::empty());
    }
    while k < header.descriptors.len()
        invariant
            k <= header.descriptors.len(),
            ds == header@.descriptors,
            names == header_names(headers@),
            names_view(out@) == deps_of(pool@, names, ds.take(k as int)),
        decreases header.descriptors.len() - k,
    {
        proof {
            assert(ds.take(k + 1).drop_last() =~= ds.take(k as int));
            assert(ds.take(k + 1).last() == header.descriptors@[k as int]@);
        }
        let ghost prior = names_view(out@);
        match header.descriptors[k].partition_name() {
            Some(n) => {
                if counts_as_dependency(pool, headers, n) && !contains_name(&out, n) {
                    out.push(n.to_owned());
                    assert(names_view(out@) =~= prior.push(n@));
                }
            },
            None => {},
        }
        k += 1;
    }
    proof {
        assert(ds.take(k as int) =~= ds);
    }
    out
}

/// The dependency between a header and a child, read off `deps_of`.
proof fn lemma_depends_on(pool: Pool, headers: Seq<NamedHeader>, i: int, c: Seq<char>)
    requires
        0 <= i < headers.len(),
    ensures
        depends_on(pool, headers, i, c) <==> deps_of(
            pool,
            header_names(headers),
            headers[i].header@.descriptors,
        ).contains(c),
{
    lemma_deps_of(pool, header_names(headers), headers[i].header@.descriptors);
}

/// Where no item of the sorter is ready, no order that holds an item of the
/// sorter has children first.
proof fn lemma_stuck(
    pool: Pool,
    headers: Seq<NamedHeader>,
    g: Dependents,
    order: Seq<Seq<char>>,
    a: int,
)
    requires
        0 <= a < order.len(),
        g.dom().contains(order[a]),
        forall|k: Seq<char>| !is_ready(g, k),
        forall|k: Seq<char>, p: Seq<char>|
            g.dom().contains(k) && (#[trigger] g[k]).contains(p) ==> #[trigger] parent_of(
                pool,
                headers,
                p,
                k,
            ),
    ensures
        !children_first(pool, headers, order),
    decreases a,
{
    if children_first(pool, headers, order) {
        let x = order[a];
        assert(!is_ready(g, x));
        let p = choose|p: Seq<char>| g.dom().contains(p) && (#[trigger] g[p]).contains(x);
        assert(parent_of(pool, headers, x, p));
        assert(!is_ready(g, p));
        let q = choose|q: Seq<char>| g.dom().contains(q) && (#[trigger] g[q]).contains(p);
        assert(parent_of(pool, headers, p, q));
        let i = choose|i: int| #[trigger] depends_on(pool, headers, i, q) && headers[i].name@ == p;
        assert(header_names(headers)[i] == p);
        assert(order.contains(p));
        let b = choose|b: int| 0 <= b < order.len() && order[b] == p;
        assert(parent_of(pool, headers, order[a], order[b]));
        lemma_stuck(pool, headers, g, order, b);
    }
}

/// Registers every vbmeta image, and each of its dependencies as coming
/// before it.
fn fill_sorter(headers: &Vec<NamedHeader>, deps: &Vec<Vec<String>>, Ghost(pool): Ghost<Pool>) -> (t:
    TopologicalSort<String>)
    requires
        distinct(header_names(headers@)),
        deps@.len() == headers@.len(),
        forall|i: int|
            0 <= i < headers@.len() ==> names_view((#[trigger] deps@[i])@) == deps_of(
                pool,
                header_names(headers@),
                headers@[i].header@.descriptors,
            ),
    ensures
        pending(t).dom().finite(),
        forall|i: int| 0 <= i < headers@.len() ==> pending(t).dom().contains(#[trigger] headers@[i].name@),
        forall|i: int, c: Seq<char>| #[trigger]
            depends_on(pool, headers@, i, c) ==> pending(t).dom().contains(c) && pending(t)[c].contains(
                headers@[i].name@,
            ),
        forall|k: Seq<char>, p: Seq<char>|
            pending(t).dom().contains(k) && (#[trigger] pending(t)[k]).contains(p)
                ==> #[trigger] parent_of(pool, headers@, p, k),
{
    let mut t = topo_new();
    let mut i: usize = 0;
    while i < headers.len()
        invariant
            i <= headers.len(),
            pending(t).dom().finite(),
            forall|j: int| 0 <= j < i ==> pending(t).dom().contains(#[trigger] headers@[j].name@),
            forall|k: Seq<char>| pending(t).dom().contains(k) ==> #[trigger] pending(t)[k] == Set::<
                Seq<char>,
            >::empty(),
        decreases headers.len() - i,
    {
        let _ = topo_insert(&mut t, headers[i].name.as_str());
        i += 1;
    }
    let mut i: usize = 0;
    while i < headers.len()
        invariant
            i <= headers.len(),
            distinct(header_names(headers@)),
            deps@.len() == headers@.len(),
            forall|j: int|
                0 <= j < headers@.len() ==> names_view((#[trigger] deps@[j])@) == deps_of(
                    pool,
                    header_names(headers@),
                    headers@[j].header@.descriptors,
                ),
            pending(t).dom().finite(),
            forall|j: int|
                0 <= j < headers@.len() ==> pending(t).dom().contains(#[trigger] headers@[j].name@),
            forall|j: int, c: Seq<char>|
                0 <= j < i && #[trigger] depends_on(pool, headers@, j, c) ==> pending(
                    t,
                ).dom().contains(c) && pending(t)[c].contains(headers@[j].name@),
            forall|k: Seq<char>, p: Seq<char>|
                pending(t).dom().contains(k) && (#[trigger] pending(t)[k]).contains(p)
                    ==> #[trigger] parent_of(pool, headers@, p, k),
        decreases headers.len() - i,
    {
        let list = &deps[i];
        let ghost lv = names_view(list@);
        let mut j: usize = 0;
        while j < list.len()
            invariant
                j <= list.len(),
                i < headers.len(),
                lv == names_view(list@),
                lv == deps_of(pool, header_names(headers@), headers@[i as int].header@.descriptors),
                pending(t).dom().finite(),
                forall|m: int|
                    0 <= m < headers@.len() ==> pending(t).dom().contains(
                        #[trigger] headers@[m].name@,
                    ),
                forall|m: int, c: Seq<char>|
                    0 <= m < i && #[trigger] depends_on(pool, headers@, m, c) ==> pending(
                        t,
                    ).dom().contains(c) && pending(t)[c].contains(headers@[m].name@),
                forall|m: int|
                    0 <= m < j ==> pending(t).dom().contains(#[trigger] lv[m]) && pending(
                        t,
                    )[lv[m]].contains(headers@[i as int].name@),
                forall|k: Seq<char>, p: Seq<char>|
                    pending(t).dom().contains(k) && (#[trigger] pending(t)[k]).contains(p)
                        ==> #[trigger] parent_of(pool, headers@, p, k),
            decreases list.len() - j,
        {
            let ghost g = pending(t);
            let ghost child = lv[j as int];
            let ghost parent = headers@[i as int].name@;
            assert(list@[j as int]@ == child);
            topo_add_dependency(&mut t, list[j].as_str(), headers[i].name.as_str());
            proof {
                let h = pending(t);
                assert(h == with_dependency(g, child, parent));
                assert(lv.contains(child));
                lemma_depends_on(pool, headers@, i as int, child);
                assert(depends_on(pool, headers@, i as int, child));
                assert(parent_of(pool, headers@, parent, child));
                assert(g.dom().contains(parent));
                assert forall|k: Seq<char>| g.dom().contains(k) implies h.dom().contains(k)
                    && g[k].subset_of(#[trigger] h[k]) by {}
                assert forall|k: Seq<char>, p: Seq<char>|
                    h.dom().contains(k) && (#[trigger] h[k]).contains(p) implies #[trigger] parent_of(
                    pool,
                    headers@,
                    p,
                    k,
                ) by {
                    if k == child && p == parent {
                    } else {
                        assert(g.dom().contains(k) && g[k].contains(p));
                    }
                }
                assert forall|m: int, c: Seq<char>|
                    0 <= m < i && #[trigger] depends_on(
                        pool,
                        headers@,
                        m,
                        c,
                    ) implies h.dom().contains(c) && h[c].contains(headers@[m].name@) by {
                    assert(g.dom().contains(c) && g[c].contains(headers@[m].name@));
                    assert(g[c].subset_of(h[c]));
                }
                assert forall|m: int| 0 <= m < j + 1 implies h.dom().contains(#[trigger] lv[m])
                    && h[lv[m]].contains(parent) by {
                    if m < j {
                        assert(g.dom().contains(lv[m]) && g[lv[m]].contains(parent));
                        assert(g[lv[m]].subset_of(h[lv[m]]));
                    }
                }
            }
            j += 1;
        }
        proof {
            assert forall|m: int, c: Seq<char>|
                0 <= m < i + 1 && #[trigger] depends_on(pool, headers@, m, c) implies pending(
                t,
            ).dom().contains(c) && pending(t)[c].contains(headers@[m].name@) by {
                if m == i {
                    lemma_depends_on(pool, headers@, i as int, c);
                    let w = choose|w: int| 0 <= w < lv.len() && lv[w] == c;
                    assert(pending(t).dom().contains(lv[w]));
                }
            }
        }
        i += 1;
    }
    t
}

/// The roots among the vbmeta images, in ascending order.
fn find_roots(headers: &Vec<NamedHeader>, deps: &Vec<Vec<String>>, Ghost(pool): Ghost<Pool>) -> (r:
    Vec<String>)
    requires
        distinct(header_names(headers@)),
        deps@.len() == headers@.len(),
        forall|i: int|
            0 <= i < headers@.len() ==> names_view((#[trigger] deps@[i])@) == deps_of(
                pool,
                header_names(headers@),
                headers@[i].header@.descriptors,
            ),
    ensures
        strictly_sorted(names_view(r@)),
        forall|n: Seq<char>| names_view(r@).contains(n) <==> is_root(pool, headers@, n),
{
    let ghost names = header_names(headers@);
    let mut roots: Vec<String> = Vec::new();
    let mut j: usize = 0;
    while j < headers.len()
        invariant
            j <= headers.len(),
            names == header_names(headers@),
            deps@.len() == headers@.len(),
            forall|i: int|
                0 <= i < headers@.len() ==> names_view((#[trigger] deps@[i])@) == deps_of(
                    pool,
                    header_names(headers@),
                    headers@[i].header@.descriptors,
                ),
            forall|n: Seq<char>|
                names_view(roots@).contains(n) <==> names.take(j as int).contains(n) && is_root(
                    pool,
                    headers@,
                    n,
                ),
        decreases headers.len() - j,
    {
        let ghost name = headers@[j as int].name@;
        let mut child = false;
        let mut i: usize = 0;
        while i < headers.len() && !child
            invariant
                i <= headers.len(),
                j < headers.len(),
                name == headers@[j as int].name@,
                deps@.len() == headers@.len(),
                forall|m: int|
                    0 <= m < headers@.len() ==> names_view((#[trigger] deps@[m])@) == deps_of(
                        pool,
                        header_names(headers@),
                        headers@[m].header@.descriptors,
                    ),
                !child ==> forall|m: int| 0 <= m < i ==> !#[trigger] depends_on(pool, headers@, m, name),
                child ==> exists|m: int| #[trigger] depends_on(pool, headers@, m, name),
            decreases headers.len() - i,
        {
            proof {
                lemma_depends_on(pool, headers@, i as int, name);
            }
            if contains_name(&deps[i], headers[j].name.as_str()) {
                child = true;
            }
            i += 1;
        }
        let ghost prior = names_view(roots@);
        proof {
            lemma_take_next(names, j as int);
            lemma_contains_push(prior, name);
            assert(names[j as int] == name);
            assert(names.contains(name));
        }
        if !child {
            roots.push(headers[j].name.clone());
            assert(names_view(roots@) =~= prior.push(name));
            assert(is_root(pool, headers@, name));
        }
        proof {
            let now = names_view(roots@);
            assert forall|n: Seq<char>|
                now.contains(n) <==> names.take(j + 1).contains(n) && is_root(
                    pool,
                    headers@,
                    n,
                ) by {
                assert(prior.contains(n) <==> names.take(j as int).contains(n) && is_root(
                    pool,
                    headers@,
                    n,
                ));
                assert(names.take(j + 1).contains(n) <==> names.take(j as int).contains(n) || n
                    == name);
                if child {
                    assert(!is_root(pool, headers@, name));
                    assert(now == prior);
                } else {
                    assert(now.contains(n) <==> prior.contains(n) || n == name);
                }
            }
        }
        j += 1;
    }
    proof {
        assert(names.take(j as int) =~= names);
    }
    sorted_unique(&roots)
}

/// The order in which the vbmeta images are patched so that one pass is
/// enough: every image comes after the vbmeta images it depends on. Every
/// vbmeta image is in the order, also one without dependencies. It fails
/// where more than one image is a root, and where the images depend on each
/// other in a circle.
pub fn get_vbmeta_patch_order(pool: &ImagePool, headers: &Vec<NamedHeader>) -> (r: Result<
    Vec<PatchNode>,
    OtaError,
>)
    requires
        distinct(header_names(headers@)),
    ensures
        r is Ok <==> !many_roots(pool@, headers@) && acyclic(pool@, headers@),
        match r {
            Ok(order) => children_first(pool@, headers@, node_names(order@)) && forall|a: int| 0 <= a < order@.len() ==> is_node(pool@, headers@, #[trigger] order@[a]),
            Err(OtaError::MultipleRoots(roots)) => many_roots(pool@, headers@) && strictly_sorted(
                names_view(roots@),
            ) && forall|n: Seq<char>|
                names_view(roots@).contains(n) <==> is_root(pool@, headers@, n),
            Err(OtaError::DependencyCycle) => !many_roots(pool@, headers@) && !acyclic(
                pool@,
                headers@,
            ),
            Err(_) => false,
        },
{
    let ghost pv = pool@;
    let ghost names = header_names(headers@);
    let mut deps: Vec<Vec<String>> = Vec::new();
    let mut i: usize = 0;
    while i < headers.len()
        invariant
            i <= headers.len(),
            deps@.len() == i,
            forall|j: int|
                0 <= j < i ==> names_view((#[trigger] deps@[j])@) == deps_of(
                    pool@,
                    header_names(headers@),
                    headers@[j].header@.descriptors,
                ),
        decreases headers.len() - i,
    {
        deps.push(dependencies(pool, headers, &headers[i].header));
        i += 1;
    }
    let roots = find_roots(headers, &deps, Ghost(pv));
    if roots.len() > 1 {
        proof {
            let rv = names_view(roots@);
            assert(crate::text::lex_lt(rv[0], rv[1]));
            crate::text::lemma_lex_lt_irreflexive(rv[0]);
            assert(rv.contains(rv[0]) && rv.contains(rv[1]));
            assert(is_root(pv, headers@, rv[0]) && is_root(pv, headers@, rv[1]));
        }
        return Err(OtaError::MultipleRoots(roots));
    }
    proof {
        let rv = names_view(roots@);
        assert forall|a: Seq<char>, b: Seq<char>| #[trigger]
            is_root(pv, headers@, a) && #[trigger] is_root(pv, headers@, b) implies a == b by {
            assert(rv.contains(a) && rv.contains(b));
            let x = choose|x: int| 0 <= x < rv.len() && rv[x] == a;
            let y = choose|y: int| 0 <= y < rv.len() && rv[y] == b;
            assert(x == 0 && y == 0);
        }
    }
    let mut t = fill_sorter(headers, &deps, Ghost(pv));
    let mut order: Vec<PatchNode> = Vec::new();
    loop
        invariant
            pv == pool@,
            names == header_names(headers@),
            distinct(names),
            !many_roots(pv, headers@),
            deps@.len() == headers@.len(),
            forall|j: int|
                0 <= j < headers@.len() ==> names_view((#[trigger] deps@[j])@) == deps_of(
                    pv,
                    names,
                    headers@[j].header@.descriptors,
                ),
            pending(t).dom().finite(),
            forall|k: Seq<char>, p: Seq<char>|
                pending(t).dom().contains(k) && (#[trigger] pending(t)[k]).contains(p)
                    ==> #[trigger] parent_of(pv, headers@, p, k),
            forall|j: int, c: Seq<char>| #[trigger]
                depends_on(pv, headers@, j, c) && pending(t).dom().contains(c) ==> pending(
                    t,
                )[c].contains(headers@[j].name@),
            forall|j: int|
                0 <= j < headers@.len() ==> pending(t).dom().contains(#[trigger] names[j])
                    || node_names(order@).contains(names[j]),
            forall|a: int|
                0 <= a < order@.len() ==> names.contains(#[trigger] node_names(order@)[a])
                    && !pending(t).dom().contains(node_names(order@)[a]),
            distinct(node_names(order@)),
            forall|a: int, c: Seq<char>|
                0 <= a < order@.len() && #[trigger] parent_of(
                    pv,
                    headers@,
                    node_names(order@)[a],
                    c,
                ) ==> !pending(t).dom().contains(c),
            forall|a: int, b: int|
                0 <= a < order@.len() && 0 <= b < order@.len() && parent_of(
                    pv,
                    headers@,
                    #[trigger] node_names(order@)[a],
                    #[trigger] node_names(order@)[b],
                ) ==> b < a,
            forall|a: int| 0 <= a < order@.len() ==> is_node(pv, headers@, #[trigger] order@[a]),
        ensures
            pending(t).dom() =~= Set::<Seq<char>>::empty(),
        decreases pending(t).dom().len(),
    {
        if topo_is_empty(&t) {
            break ;
        }
        let ghost g = pending(t);
        let ghost before = node_names(order@);
        let ghost before_nodes = order@;
        match topo_pop(&mut t) {
            Some(item) => {
                let ghost x = item@;
                proof {
                    assert(g.dom().contains(x));
                    vstd::set::axiom_set_remove_len(g.dom(), x);
                    assert(pending(t).dom() =~= g.dom().remove(x));
                    assert forall|a: int| 0 <= a < before.len() implies before[a] != x by {}
                    assert forall|c: Seq<char>| #[trigger]
                        parent_of(pv, headers@, x, c) implies !g.dom().contains(c) by {
                        if g.dom().contains(c) {
                            let i = choose|i: int| #[trigger]
                                depends_on(pv, headers@, i, c) && headers@[i].name@ == x;
                            assert(g[c].contains(x));
                        }
                    }
                }
                match find_header(headers, item.as_str()) {
                    Some(i) => {
                        let node_deps = clone_names(&deps[i]);
                        order.push(PatchNode { name: item, deps: node_deps });
                        proof {
                            let now = node_names(order@);
                            assert(now =~= before.push(x));
                            assert(names[i as int] == x);
                            lemma_contains_push(before, x);
                            assert forall|a: int, b: int|
                                0 <= a < now.len() && 0 <= b < now.len() && parent_of(
                                    pv,
                                    headers@,
                                    #[trigger] now[a],
                                    #[trigger] now[b],
                                ) implies b < a by {
                                if a < before.len() && b < before.len() {
                                    assert(now[a] == before[a] && now[b] == before[b]);
                                } else if a < before.len() {
                                    assert(now[a] == before[a]);
                                    assert(!g.dom().contains(x));
                                } else if b == before.len() {
                                    assert(!g.dom().contains(x));
                                }
                            }
                            assert forall|a: int, c: Seq<char>|
                                0 <= a < now.len() && #[trigger] parent_of(
                                    pv,
                                    headers@,
                                    now[a],
                                    c,
                                ) implies !pending(t).dom().contains(c) by {
                                if a < before.len() {
                                    assert(now[a] == before[a]);
                                }
                            }
                            assert forall|a: int| 0 <= a < order@.len() implies is_node(pv, headers@, #[trigger] order@[a]) by {
                                if a < before_nodes.len() {
                                    assert(order@[a] == before_nodes[a]);
                                    assert(is_node(pv, headers@, before_nodes[a]));
                                } else {
                                    assert(headers@[i as int].name@ == order@[a].name@);
                                    assert(names_view(deps@[i as int]@) == deps_of(
                                        pv,
                                        names,
                                        headers@[i as int].header@.descriptors,
                                    ));
                                    assert(names_view(order@[a].deps@) == deps_of(
                                        pv,
                                        names,
                                        headers@[i as int].header@.descriptors,
                                    ));
                                }
                            }
                            assert forall|a: int| 0 <= a < now.len() implies names.contains(
                                #[trigger] now[a],
                            ) && !pending(t).dom().contains(now[a]) by {
                                if a < before.len() {
                                    assert(now[a] == before[a]);
                                }
                            }
                            assert forall|j: int| 0 <= j < headers@.len() implies pending(
                                t,
                            ).dom().contains(#[trigger] names[j]) || now.contains(names[j]) by {
                                assert(now[before.len() as int] == x);
                                if names[j] == x {
                                    assert(now.contains(names[j]));
                                } else if g.dom().contains(names[j]) {
                                    assert(pending(t).dom().contains(names[j]));
                                } else {
                                    assert(before.contains(names[j]));
                                    let w = choose|w: int|
                                        0 <= w < before.len() && before[w] == names[j];
                                    assert(now[w] == names[j]);
                                }
                            }
                            assert forall|a: int, b: int| 0 <= a < b < now.len() implies now[a]
                                != now[b] by {
                                if b < before.len() {
                                    assert(before[a] != before[b]);
                                } else {
                                    assert(now[a] == before[a]);
                                }
                            }
                        }
                    },
                    None => {
                        proof {
                            assert(order@ == before_nodes);
                            assert forall|j: int| 0 <= j < headers@.len() implies pending(
                                t,
                            ).dom().contains(#[trigger] names[j]) || before.contains(names[j]) by {
                                assert(names.contains(names[j]));
                                assert(names[j] != x);
                            }
                        }
                    },
                }
            },
            None => {
                proof {
                    if acyclic(pv, headers@) {
                        let ord = choose|ord: Seq<Seq<char>>| children_first(pv, headers@, ord);
                        assert(exists|k: Seq<char>| g.dom().contains(k)) by {
                            if forall|k: Seq<char>| !g.dom().contains(k) {
                                assert(g.dom() =~= Set::<Seq<char>>::empty());
                            }
                        }
                        let x = choose|k: Seq<char>| g.dom().contains(k);
                        assert(!is_ready(g, x));
                        let p = choose|p: Seq<char>| g.dom().contains(p) && (#[trigger] g[p]).contains(x);
                        assert(parent_of(pv, headers@, x, p));
                        let i = choose|i: int| #[trigger]
                            depends_on(pv, headers@, i, p) && headers@[i].name@ == x;
                        assert(names[i] == x);
                        assert(ord.contains(x));
                        let a = choose|a: int| 0 <= a < ord.len() && ord[a] == x;
                        lemma_stuck(pv, headers@, g, ord, a);
                    }
                }
                return Err(OtaError::DependencyCycle);
            },
        }
    }
    proof {
        let now = node_names(order@);
        assert forall|n: Seq<char>| now.contains(n) <==> names.contains(n) by {
            if now.contains(n) {
                let a = choose|a: int| 0 <= a < now.len() && now[a] == n;
                assert(names.contains(now[a]));
            }
            if names.contains(n) {
                let j = choose|j: int| 0 <= j < names.len() && names[j] == n;
                assert(!pending(t).dom().contains(names[j]));
            }
        }
        assert(children_first(pv, headers@, now));
        assert(acyclic(pv, headers@));
        
    }
    Ok(order)
}

/// The vbmeta images that can be put in order have a root among them:
/// where there are vbmeta images and none of them is a root, they depend on
/// each other in a circle.
pub proof fn lemma_no_root_means_cycle(pool: Pool, headers: Seq<NamedHeader>)
    requires
        headers.len() > 0,
        forall|n: Seq<char>| !is_root(pool, headers, n),
    ensures
        !acyclic(pool, headers),
{
    if acyclic(pool, headers) {
        let order = choose|order: Seq<Seq<char>>| children_first(pool, headers, order);
        let names = header_names(headers);
        assert(names[0] == headers[0].name@);
        assert(names.contains(names[0]));
        assert(order.contains(names[0]));
        let last = order[order.len() - 1];
        assert(order.contains(last));
        assert(names.contains(last));
        assert(!is_root(pool, headers, last));
        let i = choose|i: int| #[trigger] depends_on(pool, headers, i, last);
        assert(names[i] == headers[i].name@);
        assert(order.contains(headers[i].name@));
        let a = choose|a: int| 0 <= a < order.len() && order[a] == headers[i].name@;
        assert(parent_of(pool, headers, order[a], order[order.len() - 1]));
    }
}

/// The dependencies that a node of the patch order lists are exactly the
/// partitions that its header depends on: those that a descriptor of the
/// header is about, that the pool holds, and that are vbmeta images or were
/// modified. So the descriptor that the update of the header looks for is
/// there.
pub proof fn lemma_dependencies_are_the_edges(
    pool: Pool,
    headers: Seq<NamedHeader>,
    node: PatchNode,
    i: int,
)
    requires
        0 <= i < headers.len(),
        names_view(node.deps@) == deps_of(
            pool,
            header_names(headers),
            headers[i].header@.descriptors,
        ),
    ensures
        distinct(names_view(node.deps@)),
        forall|c: Seq<char>|
            names_view(node.deps@).contains(c) <==> #[trigger] depends_on(pool, headers, i, c),
        forall|c: Seq<char>| #[trigger]
            depends_on(pool, headers, i, c) <==> headers[i].header@.mentions(c)
                && pool.dom().contains(c) && (header_names(headers).contains(c) || pool[c]
                == InputFileState::Modified),
{
    lemma_deps_of(pool, header_names(headers), headers[i].header@.descriptors);
    assert forall|c: Seq<char>|
        names_view(node.deps@).contains(c) <==> #[trigger] depends_on(pool, headers, i, c) by {
        lemma_depends_on(pool, headers, i, c);
    }
}

/// An image of the pool that verified boot does not look at: it is no
/// vbmeta image, and no vbmeta image depends on it.
pub open spec fn is_unreferenced(pool: Pool, headers: Seq<NamedHeader>, name: Seq<char>) -> bool {
    pool.dom().contains(name) && !header_names(headers).contains(name) && forall|i: int|
        !#[trigger] depends_on(pool, headers, i, name)
}

/// The images of the pool that verified boot does not look at, in
/// ascending order. They are worth a warning, and no more.
pub fn unprotected_images(pool: &ImagePool, headers: &Vec<NamedHeader>) -> (r: Vec<String>)
    ensures
        strictly_sorted(names_view(r@)),
        forall|n: Seq<char>| names_view(r@).contains(n) <==> is_unreferenced(pool@, headers@, n),
{
    let names = pool.names();
    let ghost nv = names_view(names@);
    let mut out: Vec<String> = Vec::new();
    let mut k: usize = 0;
    while k < names.len()
        invariant
            k <= names.len(),
            nv == names_view(names@),
            forall|n: Seq<char>| nv.contains(n) <==> pool@.dom().contains(n),
            forall|n: Seq<char>|
                names_view(out@).contains(n) <==> nv.take(k as int).contains(n) && is_unreferenced(
                    pool@,
                    headers@,
                    n,
                ),
        decreases names.len() - k,
    {
        let name = names[k].as_str();
        let ghost prior = names_view(out@);
        proof {
            lemma_take_next(nv, k as int);
            lemma_contains_push(prior, name@);
            assert(nv[k as int] == name@);
            assert(nv.contains(name@));
        }
        let found = find_header(headers, name);
        let mut referenced = found.is_some();
        proof {
            if found is Some {
                assert(header_names(headers@)[found.unwrap() as int] == name@);
                assert(header_names(headers@).contains(name@));
            }
        }
        if !referenced && counts_as_dependency(pool, headers, name) {
            let mut i: usize = 0;
            while i < headers.len() && !referenced
                invariant
                    i <= headers.len(),
                    counts(pool@, header_names(headers@), name@),
                    !referenced ==> forall|j: int|
                        0 <= j < i ==> !#[trigger] depends_on(pool@, headers@, j, name@),
                    referenced ==> exists|j: int| #[trigger] depends_on(pool@, headers@, j, name@),
                decreases headers.len() - i,
            {
                if headers[i].header.find_descriptor(name).is_some() {
                    assert(depends_on(pool@, headers@, i as int, name@));
                    referenced = true;
                }
                i += 1;
            }
        }
        if !referenced {
            out.push(names[k].clone());
            assert(names_view(out@) =~= prior.push(name@));
            assert(is_unreferenced(pool@, headers@, name@));
        }
        proof {
            let now = names_view(out@);
            assert forall|n: Seq<char>|
                now.contains(n) <==> nv.take(k + 1).contains(n) && is_unreferenced(
                    pool@,
                    headers@,
                    n,
                ) by {
                assert(prior.contains(n) <==> nv.take(k as int).contains(n) && is_unreferenced(
                    pool@,
                    headers@,
                    n,
                ));
                assert(nv.take(k + 1).contains(n) <==> nv.take(k as int).contains(n) || n
                    == name@);
                if referenced {
                    assert(!is_unreferenced(pool@, headers@, name@));
                    assert(now == prior);
                } else {
                    assert(now.contains(n) <==> prior.contains(n) || n == name@);
                }
            }
        }
        k += 1;
    }
    proof {
        assert(nv.take(k as int) =~= nv);
    }
    sorted_unique(&out)
}

/// A copy of a list of names.
pub fn clone_names(names: &Vec<String>) -> (r: Vec<String>)
    ensures
        names_view(r@) == names_view(names@),
{
    let mut out: Vec<String> = Vec::new();
    let mut i: usize = 0;
    while i < names.len()
        invariant
            i <= names.len(),
            out@.len() == i,
            forall|j: int| 0 <= j < i ==> out@[j]@ == names@[j]@,
        decreases names.len() - i,
    {
        out.push(names[i].clone());
        i += 1;
    }
    assert(names_view(out@) =~= names_view(names@));
    out
}

} // verus!
