//! The topological sorter that orders the vbmeta images.
//!
//! The sorter is held as it comes from its crate. What it holds is named by
//! `pending`: for each item still in the sorter, the set of items that were
//! registered as coming after it.

use vstd::prelude::*;
use topological_sort::TopologicalSort;

verus! {

/// The sorter of the `topological-sort` crate. Nothing inside it is
/// visible here: what it holds is spoken of through `pending`.
#[verifier::external_type_specification]
#[verifier::external_body]
#[verifier::reject_recursive_types(T)]
pub struct ExTopologicalSort<T>(TopologicalSort<T>);

/// Items with, for each, the items that come after it.
pub type Dependents = Map<Seq<char>, Set<Seq<char>>>;

/// What a sorter holds.
pub uninterp spec fn pending(t: TopologicalSort<String>) -> Map<Seq<char>, Set<Seq<char>>>;

/// An item is ready when it is in the sorter and comes after no item that
/// is still in it.
pub open spec fn is_ready(g: Dependents, k: Seq<char>) -> bool {
    g.dom().contains(k) && forall|p: Seq<char>| g.dom().contains(p) ==> !(#[trigger] g[p]).contains(k)
}

/// The sorter's contents after `succ` was registered as coming after
/// `prec`. A pair that is registered already changes nothing; otherwise
/// both items are in the sorter afterwards.
pub open spec fn with_dependency(g: Dependents, prec: Seq<char>, succ: Seq<char>) -> Dependents {
    if g.dom().contains(prec) && g[prec].contains(succ) {
        g
    } else {
        let after = if g.dom().contains(prec) {
            g[prec].insert(succ)
        } else {
            Set::empty().insert(succ)
        };
        let h = g.insert(prec, after);
        if h.dom().contains(succ) {
            h
        } else {
            h.insert(succ, Set::empty())
        }
    }
}

/// `TopologicalSort::new`: a sorter that holds nothing.
#[verifier::external_body]
pub(crate) fn topo_new() -> (t: TopologicalSort<String>)
    ensures
        pending(t) == Dependents::empty(),
{
    TopologicalSort::new()
}

/// `TopologicalSort::insert`: puts an item into the sorter, with nothing
/// coming after it, unless the sorter holds the item. The result says
/// whether the item was new.
#[verifier::external_body]
pub(crate) fn topo_insert(t: &mut TopologicalSort<String>, item: &str) -> (fresh: bool)
    ensures
        fresh == !pending(*old(t)).dom().contains(item@),
        pending(*final(t)) == if fresh {
            pending(*old(t)).insert(item@, Set::empty())
        } else {
            pending(*old(t))
        },
{
    t.insert(item)
}

/// `TopologicalSort::add_dependency`: registers that `succ` comes after
/// `prec`.
#[verifier::external_body]
pub(crate) fn topo_add_dependency(t: &mut TopologicalSort<String>, prec: &str, succ: &str)
    ensures
        pending(*final(t)) == with_dependency(pending(*old(t)), prec@, succ@),
{
    t.add_dependency(prec, succ)
}

/// `TopologicalSort::is_empty`: whether the sorter holds no item.
#[verifier::external_body]
pub(crate) fn topo_is_empty(t: &TopologicalSort<String>) -> (r: bool)
    ensures
        r == (pending(*t).dom() =~= Set::empty()),
{
    t.is_empty()
}

/// `TopologicalSort::pop`: takes one ready item out of the sorter and
/// returns it. Which of several ready items leaves is not said. Nothing is
/// returned, and nothing changes, where no item is ready.
#[verifier::external_body]
pub(crate) fn topo_pop(t: &mut TopologicalSort<String>) -> (r: Option<String>)
    ensures
        match r {
            Some(k) => is_ready(pending(*old(t)), k@) && pending(*final(t)) == pending(
                *old(t),
            ).remove(k@),
            None => pending(*final(t)) == pending(*old(t)) && forall|k: Seq<char>|
                !is_ready(pending(*old(t)), k),
        },
{
    t.pop()
}

} // verus!
