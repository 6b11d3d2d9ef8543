//! Dependency graphs sorted with `topological_sort::TopologicalSort`.
//!
//! The sorter is an outside type. What it holds is named by `toposort_nodes`:
//! for every item, the number of its remaining predecessors and the set of its
//! successors. The wrappers below state what each method does to that map, as
//! the crate's source shows it.
use topological_sort::TopologicalSort;
use vstd::prelude::*;
use vstd::set_lib::*;

verus! {

#[verifier::external_type_specification]
#[verifier::external_body]
#[verifier::reject_recursive_types(T)]
pub struct ExTopologicalSort<T>(TopologicalSort<T>);

/// Items of a sorter: for each, its number of remaining predecessors and its
/// set of successors.
pub type SortItems = Map<u32, (nat, Set<u32>)>;

/// The items of a sorter: for each, its number of remaining predecessors and
/// its set of successors.
pub uninterp spec fn toposort_nodes(ts: TopologicalSort<u32>) -> Map<u32, (nat, Set<u32>)>;

/// The items after `add_dependency(prec, succ)`: nothing changes if the link is
/// already there; else `succ` joins the successors of `prec` (which is created
/// if missing) and `succ` (created if missing) gains a predecessor.
pub open spec fn add_dependency_spec(m: Map<u32, (nat, Set<u32>)>, prec: u32, succ: u32) -> Map<
    u32,
    (nat, Set<u32>),
> {
    if m.contains_key(prec) && m[prec].1.contains(succ) {
        m
    } else {
        let m1 = if m.contains_key(prec) {
            m.insert(prec, (m[prec].0, m[prec].1.insert(succ)))
        } else {
            m.insert(prec, (0nat, Set::<u32>::empty().insert(succ)))
        };
        if m1.contains_key(succ) {
            m1.insert(succ, ((m1[succ].0 + 1) as nat, m1[succ].1))
        } else {
            m1.insert(succ, (1nat, Set::<u32>::empty()))
        }
    }
}

/// Items with no remaining predecessor.
pub open spec fn ready_items(m: Map<u32, (nat, Set<u32>)>) -> Set<u32> {
    m.dom().filter(|k: u32| m[k].0 == 0)
}

/// Ready items that `x` is a successor of.
pub open spec fn ready_predecessors(m: Map<u32, (nat, Set<u32>)>, x: u32) -> Set<u32> {
    ready_items(m).filter(|k: u32| m[k].1.contains(x))
}

/// The items after `pop_all`: the ready items are removed, and each remaining
/// item loses one predecessor per removed item it was a successor of.
pub open spec fn pop_all_spec(m: Map<u32, (nat, Set<u32>)>) -> Map<u32, (nat, Set<u32>)> {
    Map::new(
        |x: u32| m.contains_key(x) && m[x].0 != 0,
        |x: u32| ((m[x].0 - ready_predecessors(m, x).len()) as nat, m[x].1),
    )
}

/// Calls `TopologicalSort::new`: no items.
#[verifier::external_body]
pub(crate) fn toposort_new() -> (ts: TopologicalSort<u32>)
    ensures
        toposort_nodes(ts) == SortItems::empty(),
{
    TopologicalSort::new()
}

/// Calls `TopologicalSort::add_dependency`: `succ` depends on `prec`. The
/// predecessor counter of `succ` must not overflow.
#[verifier::external_body]
pub(crate) fn toposort_add_dependency(ts: &mut TopologicalSort<u32>, prec: u32, succ: u32)
    requires
        toposort_nodes(*old(ts)).contains_key(succ) ==> toposort_nodes(*old(ts))[succ].0
            < usize::MAX,
    ensures
        toposort_nodes(*final(ts)) == add_dependency_spec(toposort_nodes(*old(ts)), prec, succ),
{
    ts.add_dependency(prec, succ)
}

/// Calls `TopologicalSort::len`: the number of items.
#[verifier::external_body]
pub(crate) fn toposort_len(ts: &TopologicalSort<u32>) -> (r: usize)
    ensures
        r == toposort_nodes(*ts).dom().len(),
{
    ts.len()
}

/// Calls `TopologicalSort::pop_all`: removes the items that have no remaining
/// predecessor and returns them, each once, in no particular order. The
/// predecessor counters must not drop below zero while the successors of the
/// removed items are updated.
#[verifier::external_body]
pub(crate) fn toposort_pop_all(ts: &mut TopologicalSort<u32>) -> (r: Vec<u32>)
    requires
        forall|x: u32|
            #[trigger] toposort_nodes(*old(ts)).contains_key(x) ==> ready_predecessors(
                toposort_nodes(*old(ts)),
                x,
            ).len() <= toposort_nodes(*old(ts))[x].0,
    ensures
        r@.no_duplicates(),
        r@.to_set() == ready_items(toposort_nodes(*old(ts))),
        toposort_nodes(*final(ts)) == pop_all_spec(toposort_nodes(*old(ts))),
{
    ts.pop_all()
}

/// The items of `m` that have `x` among their successors.
pub open spec fn predecessors_in(m: Map<u32, (nat, Set<u32>)>, x: u32) -> Set<u32> {
    m.dom().filter(|p: u32| m[p].1.contains(x))
}

/// Every item's counter is its number of predecessors among the items.
pub open spec fn counts_consistent(m: Map<u32, (nat, Set<u32>)>) -> bool {
    &&& m.dom().finite()
    &&& forall|x: u32| #[trigger] m.contains_key(x) ==> m[x].0 == predecessors_in(m, x).len()
}

/// Every successor of an item is itself an item.
pub open spec fn successors_closed(m: Map<u32, (nat, Set<u32>)>) -> bool {
    forall|p: u32, s: u32| #[trigger] m.contains_key(p) && #[trigger] m[p].1.contains(s) ==> m.contains_key(s)
}

pub proof fn lemma_add_dependency_consistent(m: Map<u32, (nat, Set<u32>)>, prec: u32, succ: u32)
    requires
        counts_consistent(m),
        successors_closed(m),
    ensures
        counts_consistent(add_dependency_spec(m, prec, succ)),
        successors_closed(add_dependency_spec(m, prec, succ)),
        add_dependency_spec(m, prec, succ).dom() == m.dom().insert(prec).insert(succ),
        forall|p: u32, s: u32|
            #[trigger] add_dependency_spec(m, prec, succ).contains_key(p) && #[trigger] add_dependency_spec(m, prec, succ)[p].1.contains(s)
                <==> (m.contains_key(p) && m[p].1.contains(s)) || (p == prec && s == succ),
{
    let g = add_dependency_spec(m, prec, succ);
    if m.contains_key(prec) && m[prec].1.contains(succ) {
        assert(m.dom().insert(prec).insert(succ) =~= m.dom());
        return;
    }
    assert(g.dom() =~= m.dom().insert(prec).insert(succ));
    assert forall|p: u32, s: u32| #[trigger] g.contains_key(p) && #[trigger] g[p].1.contains(s)
        <==> (m.contains_key(p) && m[p].1.contains(s)) || (p == prec && s == succ) by {
    }
    assert forall|x: u32| #[trigger] g.contains_key(x) implies g[x].0 == predecessors_in(g, x).len() by {
        if x == succ {
            assert(predecessors_in(g, x) =~= predecessors_in(m, x).insert(prec));
            assert(!predecessors_in(m, x).contains(prec));
            if m.contains_key(x) {
                lemma_set_subset_finite(m.dom(), predecessors_in(m, x));
            } else {
                assert(predecessors_in(m, x) =~= Set::<u32>::empty());
            }
        } else {
            assert(predecessors_in(g, x) =~= predecessors_in(m, x));
            if !m.contains_key(x) {
                assert(predecessors_in(m, x) =~= Set::<u32>::empty());
            }
        }
    }
}

pub proof fn lemma_pop_all_consistent(m: Map<u32, (nat, Set<u32>)>)
    requires
        counts_consistent(m),
    ensures
        counts_consistent(pop_all_spec(m)),
        pop_all_spec(m).dom() == m.dom().difference(ready_items(m)),
        forall|x: u32| #[trigger] m.contains_key(x) ==> ready_predecessors(m, x).len() <= m[x].0,
        forall|x: u32| #[trigger] pop_all_spec(m).contains_key(x) ==> pop_all_spec(m)[x].1 == m[x].1,
{
    let g = pop_all_spec(m);
    let r = ready_items(m);
    assert(g.dom() =~= m.dom().difference(r));
    lemma_set_subset_finite(m.dom(), r);
    assert forall|x: u32| #[trigger] m.contains_key(x) implies ready_predecessors(m, x).len() <= m[x].0 by {
        lemma_set_subset_finite(m.dom(), predecessors_in(m, x));
        lemma_len_subset(ready_predecessors(m, x), predecessors_in(m, x));
    }
    lemma_set_subset_finite(m.dom(), g.dom());
    assert forall|x: u32| #[trigger] g.contains_key(x) implies g[x].0 == predecessors_in(g, x).len() by {
        let a = predecessors_in(m, x);
        let b = ready_predecessors(m, x);
        lemma_set_subset_finite(m.dom(), a);
        lemma_set_subset_finite(a, b);
        assert(predecessors_in(g, x) =~= a.difference(b));
        assert(a.intersect(b) =~= b);
        lemma_set_difference_len(a, b);
    }
}

} // verus!
