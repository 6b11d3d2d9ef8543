//! Properties that relate several operations of the library.
use crate::data_group::{ids_match_positions, DataGroupRegistryEntry};
use crate::entity_allocator::{next_generation, EntityAllocator, EntityPtr};
use crate::handle::{GenerationalIndexAllocator, Handle};
use crate::data_group::DataGroupMeta;
use crate::entity::EntityID;
use crate::entity_spawn_desc::GlobalSystemID;
use crate::hierarchy::{NodeIndex, SpatialHierarchy};
use crate::world::World;
use crate::local_systems::STAGE_COUNT;
use crate::het_single_mem_block::{
    block_layout_spec, offset_of, prefix_layout, round_up, MemLayout,
};
use crate::sorting::sorted_by_key;
use crate::layer::{stack_ids, without_ids, LayerContainer, LayerID};
use vstd::prelude::*;

verus! {

/// A value stored by `allocate` is what `get` returns for the handle that
/// `allocate` gave back.
pub proof fn law_get_returns_allocated_value<V>(
    before: GenerationalIndexAllocator<V>,
    after: GenerationalIndexAllocator<V>,
    k: Handle,
    v: V,
)
    requires
        after@ == before@.insert(k, v),
    ensures
        after@.contains_key(k),
        after@[k] == v,
{
}

/// Freeing the handle that `allocate` gave back restores the live values.
pub proof fn law_free_undoes_allocate<V>(
    a0: GenerationalIndexAllocator<V>,
    a1: GenerationalIndexAllocator<V>,
    a2: GenerationalIndexAllocator<V>,
    k: Handle,
    v: V,
)
    requires
        !a0@.contains_key(k),
        a1@ == a0@.insert(k, v),
        a2@ == a1@.remove(k),
    ensures
        a2@ == a0@,
{
    assert(a2@ =~= a0@);
}

/// A handle whose value was freed never names a live value again, whatever
/// allocations and frees follow (they only make generations grow).
pub proof fn law_stale_handle_stays_dead<V>(
    a0: GenerationalIndexAllocator<V>,
    a1: GenerationalIndexAllocator<V>,
    k: Handle,
)
    requires
        a0.is_stale(k),
        GenerationalIndexAllocator::<V>::generations_grow(&a0, &a1),
    ensures
        a1.is_stale(k),
        !a1@.contains_key(k),
{
    assert(a0.slot_generation(k.index as int) <= a1.slot_generation(k.index as int));
}

/// An entity pointer is live after `allocate`, holds the entity after `init`,
/// and is no longer live after `free` unless the slot's generation counter
/// wrapped around.
pub proof fn law_entity_pointer_lifecycle<E>(
    a0: EntityAllocator<E>,
    a1: EntityAllocator<E>,
    a2: EntityAllocator<E>,
    a3: EntityAllocator<E>,
    p: EntityPtr,
    e: E,
)
    requires
        a1@ == a0@.insert(p, None),
        a2@ == a1@.insert(p, Some(e)),
        a2.slot_count() == a1.slot_count(),
        a1.slot_count() > p.index,
        a3.slot_generation(p.index as int) == next_generation(p.generation),
        p.generation < u32::MAX,
    ensures
        a1@.contains_key(p) && a1@[p] is None,
        a2@.contains_key(p) && a2@[p] == Some(e),
        !a3.ptr_is_live(p),
{
}

/// Identifiers handed out by `register` on a fresh registry are the positions
/// of the entries, and such a registry is already sorted by identifier, so
/// `init` leaves it unchanged.
pub proof fn law_registered_ids_are_sorted<F>(s: Seq<DataGroupRegistryEntry<F>>)
    requires
        ids_match_positions(s),
    ensures
        sorted_by_key(s),
{
}

/// `register` keeps identifiers equal to positions.
pub proof fn law_register_keeps_ids_at_positions<F>(
    s: Seq<DataGroupRegistryEntry<F>>,
    e: DataGroupRegistryEntry<F>,
)
    requires
        ids_match_positions(s),
        s.len() < u32::MAX,
    ensures
        ids_match_positions(s.push(DataGroupRegistryEntry { id: s.len() as u32, ..e })),
{
    let t = s.push(DataGroupRegistryEntry { id: s.len() as u32, ..e });
    assert forall|i: int| 0 <= i < t.len() implies #[trigger] t[i].id == i by {
        if i < s.len() {
            assert(t[i] == s[i]);
        }
    }
}

proof fn lemma_prefix_size_grows(layouts: Seq<MemLayout>, i: nat)
    requires
        i < layouts.len(),
        prefix_layout(layouts, (i + 1) as nat) is Some,
    ensures
        prefix_layout(layouts, i) is Some,
        prefix_layout(layouts, (i + 1) as nat)->Some_0.spec_size() == offset_of(layouts, i)
            + layouts[i as int].spec_size(),
{
}

proof fn lemma_round_up_mod(size: nat, align: nat)
    requires
        align > 0,
    ensures
        round_up(size, align) % align == 0,
        round_up(size, align) >= size,
{
    if size % align != 0 {
        let q = size / align;
        let m = size % align;
        vstd::arithmetic::div_mod::lemma_fundamental_div_mod(size as int, align as int);
        assert(round_up(size, align) == align * (q + 1)) by (nonlinear_arith)
            requires
                round_up(size, align) == size + (align - m),
                size == align * q + m,
        ;
        vstd::arithmetic::div_mod::lemma_mod_multiples_basic((q + 1) as int, align as int);
        assert((q + 1) * align == align * (q + 1)) by (nonlinear_arith);
    }
}

/// In a block built from `layouts`, every value sits at an offset that is a
/// multiple of its alignment, each value ends before the next one starts, and
/// the last value ends within the block.
pub proof fn law_block_values_are_aligned_and_disjoint(layouts: Seq<MemLayout>, i: nat)
    requires
        i < layouts.len(),
        forall|j: int| 0 <= j < layouts.len() ==> (#[trigger] layouts[j]).wf(),
        block_layout_spec(layouts) is Some,
    ensures
        offset_of(layouts, i) % (layouts[i as int].spec_align() as nat) == 0,
        i + 1 < layouts.len() ==> offset_of(layouts, i) + layouts[i as int].spec_size()
            <= offset_of(layouts, (i + 1) as nat),
        offset_of(layouts, i) + layouts[i as int].spec_size() <= block_layout_spec(
            layouts,
        )->Some_0.spec_size(),
{
    lemma_prefix_some_to(layouts, (i + 1) as nat, layouts.len());
    lemma_prefix_size_grows(layouts, i);
    lemma_round_up_mod(
        prefix_layout(layouts, i)->Some_0.spec_size() as nat,
        layouts[i as int].spec_align() as nat,
    );
    if i + 1 < layouts.len() {
        lemma_prefix_some_to(layouts, (i + 2) as nat, layouts.len());
        lemma_round_up_mod(
            prefix_layout(layouts, (i + 1) as nat)->Some_0.spec_size() as nat,
            layouts[(i + 1) as int].spec_align() as nat,
        );
    }
    lemma_prefix_size_mono(layouts, (i + 1) as nat, layouts.len());
    let last = prefix_layout(layouts, layouts.len())->Some_0;
    lemma_prefix_align_positive(layouts, layouts.len());
    lemma_round_up_mod(last.spec_size() as nat, last.spec_align() as nat);
}

proof fn lemma_prefix_some_to(layouts: Seq<MemLayout>, i: nat, n: nat)
    requires
        i <= n,
        prefix_layout(layouts, n) is Some,
    ensures
        prefix_layout(layouts, i) is Some,
    decreases n - i,
{
    if i < n {
        lemma_prefix_some_to(layouts, i, (n - 1) as nat);
    }
}

proof fn lemma_prefix_align_positive(layouts: Seq<MemLayout>, n: nat)
    requires
        n <= layouts.len(),
        forall|j: int| 0 <= j < layouts.len() ==> (#[trigger] layouts[j]).wf(),
        prefix_layout(layouts, n) is Some,
    ensures
        prefix_layout(layouts, n)->Some_0.spec_align() > 0,
    decreases n,
{
    if n > 0 {
        lemma_prefix_some_to(layouts, (n - 1) as nat, n);
        lemma_prefix_align_positive(layouts, (n - 1) as nat);
    }
}

proof fn lemma_prefix_size_mono(layouts: Seq<MemLayout>, i: nat, n: nat)
    requires
        i <= n <= layouts.len(),
        forall|j: int| 0 <= j < layouts.len() ==> (#[trigger] layouts[j]).wf(),
        prefix_layout(layouts, n) is Some,
    ensures
        prefix_layout(layouts, i)->Some_0.spec_size() <= prefix_layout(layouts, n)->Some_0.spec_size(),
    decreases n - i,
{
    if i < n {
        lemma_prefix_some_to(layouts, (n - 1) as nat, n);
        lemma_prefix_size_mono(layouts, i, (n - 1) as nat);
        lemma_round_up_mod(
            prefix_layout(layouts, (n - 1) as nat)->Some_0.spec_size() as nat,
            layouts[n - 1].spec_align() as nat,
        );
    }
}

/// In a well formed spatial hierarchy, the cached counts of a node are those
/// of its sub-hierarchy: how many nodes it has (at least the node itself),
/// and how many of them run in each stage.
pub proof fn law_hierarchy_counts_match_subtrees(h: SpatialHierarchy, x: int)
    requires
        h.wf(),
        0 <= x < h.len(),
    ensures
        h.n_nodes_of(x) == h.subtree(x).len(),
        h.n_nodes_of(x) >= 1,
        forall|s: int| 0 <= s < STAGE_COUNT ==> #[trigger] h.stage_count_of(x, s) == h.subtree_in_stage(x, s).len(),
{
    assert(h.node_ok(x));
    h.lemma_subtree_finite(x);
    assert(h.subtree(x).contains(x));
    vstd::set_lib::lemma_set_empty_equivalency_len(h.subtree(x));
}

/// Sum of the cached node counts of the first `k` nodes of `cs`.
pub open spec fn n_nodes_sum(h: SpatialHierarchy, cs: Seq<NodeIndex>, k: int) -> int
    decreases k,
{
    if k <= 0 {
        0
    } else {
        n_nodes_sum(h, cs, k - 1) + h.n_nodes_of(cs[k - 1] as int)
    }
}

/// Sum of the cached counts for stage `s` of the first `k` nodes of `cs`.
pub open spec fn stage_count_sum(h: SpatialHierarchy, cs: Seq<NodeIndex>, k: int, s: int) -> int
    decreases k,
{
    if k <= 0 {
        0
    } else {
        stage_count_sum(h, cs, k - 1, s) + h.stage_count_of(cs[k - 1] as int, s)
    }
}

/// The nodes of the sub-hierarchies of the first `k` nodes of `cs`.
spec fn subtrees_of(h: SpatialHierarchy, cs: Seq<NodeIndex>, k: int) -> Set<int>
    decreases k,
{
    if k <= 0 {
        Set::empty()
    } else {
        subtrees_of(h, cs, k - 1).union(h.subtree(cs[k - 1] as int))
    }
}

/// The sub-hierarchies of the first `k` children of `x` lie below `x`, do
/// not hold `x`, and hold as many nodes (in all, and in each stage) as the
/// sums of the children's cached counts.
proof fn lemma_subtrees_of_children(h: SpatialHierarchy, x: NodeIndex, k: int)
    requires
        h.wf(),
        x < h.len(),
        0 <= k <= h.children_of(x as int).len(),
    ensures
        subtrees_of(h, h.children_of(x as int), k).finite(),
        subtrees_of(h, h.children_of(x as int), k).len() == n_nodes_sum(h, h.children_of(x as int), k),
        forall|s: int| 0 <= s < STAGE_COUNT ==> subtrees_of(h, h.children_of(x as int), k).filter(|y: int| h.runs_in(y, s)).len()
            == #[trigger] stage_count_sum(h, h.children_of(x as int), k, s),
        subtrees_of(h, h.children_of(x as int), k).subset_of(h.subtree(x as int)),
        !subtrees_of(h, h.children_of(x as int), k).contains(x as int),
        forall|m: int, y: int| 0 <= m < k && #[trigger] h.subtree(h.children_of(x as int)[m] as int).contains(y)
            ==> subtrees_of(h, h.children_of(x as int), k).contains(y),
        forall|y: int| #[trigger] subtrees_of(h, h.children_of(x as int), k).contains(y)
            ==> exists|m: int| 0 <= m < k && #[trigger] h.subtree(h.children_of(x as int)[m] as int).contains(y),
    decreases k,
{
    let cs = h.children_of(x as int);
    assert(h.node_ok(x as int));
    if k > 0 {
        lemma_subtrees_of_children(h, x, k - 1);
        let prev = subtrees_of(h, cs, k - 1);
        let c = cs[k - 1];
        let sub = h.subtree(c as int);
        assert(h.node_ok(c as int));
        h.lemma_subtree_finite(c as int);
        h.lemma_child_subtree_smaller(x, c);
        assert(prev.disjoint(sub)) by {
            assert forall|y: int| prev.contains(y) implies !sub.contains(y) by {
                if sub.contains(y) {
                    let m = choose_child(h, x, k - 1, y);
                    h.lemma_sibling_subtrees_disjoint(x, cs[m], c, y);
                    assert(cs.no_duplicates());
                }
            }
        }
        vstd::set_lib::lemma_set_disjoint_lens(prev, sub);
        assert(subtrees_of(h, cs, k) == prev.union(sub));
        assert forall|s: int| 0 <= s < STAGE_COUNT implies subtrees_of(h, cs, k).filter(|y: int| h.runs_in(y, s)).len()
            == #[trigger] stage_count_sum(h, cs, k, s) by {
            let f = |y: int| h.runs_in(y, s);
            assert(prev.filter(f).len() == stage_count_sum(h, cs, k - 1, s));
            assert(prev.union(sub).filter(f) =~= prev.filter(f).union(sub.filter(f)));
            assert(sub.filter(f) =~= h.subtree_in_stage(c as int, s));
            assert(h.stage_count_of(c as int, s) == h.subtree_in_stage(c as int, s).len());
            prev.lemma_len_filter(f);
            sub.lemma_len_filter(f);
            vstd::set_lib::lemma_set_disjoint_lens(prev.filter(f), sub.filter(f));
        }
        assert(!sub.contains(x as int)) by {
            h.lemma_ancestors_acyclic(x as int);
            h.lemma_ancestors_acyclic(c as int);
            assert(h.ancestors(c as int) == seq![x] + h.ancestors(x as int));
            assert(h.ancestors(c as int)[0] == x);
            assert(h.ancestors(c as int).contains(x));
            if h.ancestors(x as int).contains(c) {
                h.lemma_ancestors_transitive(x as int, c, x);
            }
        }
    } else {
        assert(subtrees_of(h, cs, k) == Set::<int>::empty());
        assert forall|s: int| 0 <= s < STAGE_COUNT implies subtrees_of(h, cs, k).filter(|y: int| h.runs_in(y, s)).len()
            == #[trigger] stage_count_sum(h, cs, k, s) by {
            assert(subtrees_of(h, cs, k).filter(|y: int| h.runs_in(y, s)) =~= Set::<int>::empty());
        }
    }
}

/// A node of the sub-hierarchies of the first `k` children of `x` lies in
/// the sub-hierarchy of one of them.
spec fn choose_child(h: SpatialHierarchy, x: NodeIndex, k: int, y: int) -> int {
    choose|m: int| 0 <= m < k && #[trigger] h.subtree(h.children_of(x as int)[m] as int).contains(y)
}

/// In a well formed spatial hierarchy, a node counts itself and the nodes
/// its children count: its node count is one more than the sum of its
/// children's, and its count for a stage is the sum of its children's, plus
/// one where the node itself runs in that stage.
pub proof fn law_counts_sum_over_children(h: SpatialHierarchy, x: NodeIndex)
    requires
        h.wf(),
        x < h.len(),
    ensures
        h.n_nodes_of(x as int) == 1 + n_nodes_sum(h, h.children_of(x as int), h.children_of(x as int).len() as int),
        forall|s: int| 0 <= s < STAGE_COUNT ==> #[trigger] h.stage_count_of(x as int, s)
            == (if h.runs_in(x as int, s) { 1int } else { 0int })
            + stage_count_sum(h, h.children_of(x as int), h.children_of(x as int).len() as int, s),
{
    let cs = h.children_of(x as int);
    let n = cs.len() as int;
    assert(h.node_ok(x as int));
    lemma_subtrees_of_children(h, x, n);
    let below = subtrees_of(h, cs, n);
    h.lemma_subtree_finite(x as int);
    assert(h.subtree(x as int) =~= below.insert(x as int)) by {
        assert forall|y: int| h.subtree(x as int).contains(y) && y != x implies below.contains(y) by {
            assert(h.node_ok(y));
            let an = h.ancestors(y);
            let i = choose|i: int| 0 <= i < an.len() && an[i] == x;
            let c: NodeIndex = if i == 0 { y as NodeIndex } else { an[i - 1] };
            if i == 0 {
                assert(an[0] == h.parent_of(y)->0);
                assert(h.parent_of(y) == Some(x));
            } else {
                h.lemma_ancestors_suffix(y, i - 1);
                assert(h.node_ok(c as int));
                assert(h.ancestors(c as int)[0] == x);
                assert(h.parent_of(c as int) == Some(x));
                assert(an.contains(c));
            }
            assert(0 <= c < h.len());
            assert(h.parent_of(c as int) == Some(x));
            assert(cs.contains((c as int) as NodeIndex));
            let m = choose|m: int| 0 <= m < n && cs[m] == c;
            assert(h.subtree(cs[m] as int).contains(y));
        }
    }
    assert(h.n_nodes_of(x as int) == below.len() + 1);
    assert forall|s: int| 0 <= s < STAGE_COUNT implies #[trigger] h.stage_count_of(x as int, s)
        == (if h.runs_in(x as int, s) { 1int } else { 0int }) + stage_count_sum(h, cs, n, s) by {
        let f = |y: int| h.runs_in(y, s);
        assert(below.filter(f).len() == stage_count_sum(h, cs, n, s));
        if h.runs_in(x as int, s) {
            assert(h.subtree_in_stage(x as int, s) =~= below.filter(f).insert(x as int));
        } else {
            assert(h.subtree_in_stage(x as int, s) =~= below.filter(f));
        }
    }
}

/// Ancestor chains are determined by the parent links.
proof fn lemma_same_links_same_ancestors(h1: SpatialHierarchy, h2: SpatialHierarchy, x: int)
    requires
        h1.wf(),
        h2.wf(),
        h1.len() == h2.len(),
        forall|y: int| 0 <= y < h1.len() ==> #[trigger] h1.parent_of(y) == h2.parent_of(y),
        0 <= x < h1.len(),
    ensures
        h1.ancestors(x) == h2.ancestors(x),
    decreases h1.ancestors(x).len(),
{
    assert(h1.node_ok(x));
    assert(h2.node_ok(x));
    assert(h1.parent_of(x) == h2.parent_of(x));
    match h1.parent_of(x) {
        Some(p) => {
            assert(h1.ancestors(x)[0] == p);
            lemma_same_links_same_ancestors(h1, h2, p as int);
        },
        None => {},
    }
}

/// The cached counts depend only on the parent links and on the stages each
/// node runs in: two well formed hierarchies that agree on those have the
/// same counts.
pub proof fn law_counts_follow_links(h1: SpatialHierarchy, h2: SpatialHierarchy)
    requires
        h1.wf(),
        h2.wf(),
        h1.len() == h2.len(),
        forall|y: int| 0 <= y < h1.len() ==> #[trigger] h1.parent_of(y) == h2.parent_of(y),
        forall|y: int, s: int| 0 <= y < h1.len() && 0 <= s < STAGE_COUNT ==> #[trigger] h1.runs_in(y, s) == h2.runs_in(y, s),
    ensures
        forall|x: int| 0 <= x < h1.len() ==> #[trigger] h1.n_nodes_of(x) == h2.n_nodes_of(x),
        forall|x: int, s: int| 0 <= x < h1.len() && 0 <= s < STAGE_COUNT ==> #[trigger] h1.stage_count_of(x, s) == h2.stage_count_of(x, s),
{
    assert forall|y: int| 0 <= y < h1.len() implies #[trigger] h1.ancestors(y) == h2.ancestors(y) by {
        lemma_same_links_same_ancestors(h1, h2, y);
    }
    assert forall|x: int| 0 <= x < h1.len() implies h1.subtree(x) == h2.subtree(x) by {
        assert(h1.subtree(x) =~= h2.subtree(x));
    }
    assert forall|x: int| 0 <= x < h1.len() implies #[trigger] h1.n_nodes_of(x) == h2.n_nodes_of(x) by {
        assert(h1.node_ok(x));
        assert(h2.node_ok(x));
        assert(h1.subtree(x) == h2.subtree(x));
    }
    assert forall|x: int, s: int| 0 <= x < h1.len() && 0 <= s < STAGE_COUNT implies #[trigger] h1.stage_count_of(x, s) == h2.stage_count_of(x, s) by {
        assert(h1.node_ok(x));
        assert(h2.node_ok(x));
        assert(h1.subtree(x) == h2.subtree(x));
        assert(h1.subtree_in_stage(x, s) =~= h2.subtree_in_stage(x, s));
    }
}

/// Clearing the parent that `set_parent` gave to a root puts back the links
/// and the counts of the whole hierarchy as they were.
pub proof fn law_clear_parent_undoes_set_parent(
    h0: SpatialHierarchy,
    h1: SpatialHierarchy,
    h2: SpatialHierarchy,
    c: usize,
    p: usize,
)
    requires
        h0.wf(),
        c < h0.len(),
        p < h0.len(),
        h0.parent_of(c as int) is None,
        !h0.in_subtree(p as int, c as int),
        // h1 is what `set_parent(c, p)` leaves of h0
        h1.wf(),
        h1.len() == h0.len(),
        forall|x: int| 0 <= x < h0.len() ==> #[trigger] h1.parent_of(x) == if x == c {
            Some(p)
        } else {
            h0.parent_of(x)
        },
        forall|x: int, s: int| 0 <= x < h0.len() && 0 <= s < STAGE_COUNT ==> #[trigger] h1.runs_in(x, s) == h0.runs_in(x, s),
        // h2 is what `clear_parent(c)` leaves of h1
        h2.wf(),
        h2.len() == h1.len(),
        forall|x: int| 0 <= x < h1.len() ==> #[trigger] h2.parent_of(x) == if x == c {
            None
        } else {
            h1.parent_of(x)
        },
        forall|x: int, s: int| 0 <= x < h1.len() && 0 <= s < STAGE_COUNT ==> #[trigger] h2.runs_in(x, s) == h1.runs_in(x, s),
    ensures
        forall|x: int| 0 <= x < h0.len() ==> #[trigger] h2.parent_of(x) == h0.parent_of(x),
        forall|x: int| 0 <= x < h0.len() ==> #[trigger] h2.n_nodes_of(x) == h0.n_nodes_of(x),
        forall|x: int, s: int| 0 <= x < h0.len() && 0 <= s < STAGE_COUNT ==> #[trigger] h2.stage_count_of(x, s) == h0.stage_count_of(x, s),
{
    assert forall|x: int| 0 <= x < h0.len() implies #[trigger] h2.parent_of(x) == h0.parent_of(x) by {
        assert(h1.parent_of(x) == if x == c { Some(p) } else { h0.parent_of(x) });
    }
    assert forall|y: int, s: int| 0 <= y < h0.len() && 0 <= s < STAGE_COUNT implies #[trigger] h0.runs_in(y, s) == h2.runs_in(y, s) by {
        assert(h1.runs_in(y, s) == h0.runs_in(y, s));
    }
    law_counts_follow_links(h0, h2);
}

/// Destroying a non-spatial entity right after creating it gives back the
/// world's entities and the number of entities that require each global
/// system.
pub proof fn law_destroy_undoes_create<D: DataGroupMeta>(
    w0: World<D>,
    w1: World<D>,
    w2: World<D>,
    id: EntityID,
    ptr: EntityPtr,
)
    requires
        w0.wf(),
        !w0.spec_entities().contains_key(id),
        // w1 is what `create_entity_internal` with identifier `id` leaves of w0
        w1.wf(),
        w1.spec_entities() == w0.spec_entities().insert(id, ptr),
        forall|o: EntityID| #[trigger] w0.spec_entities().contains_key(o) ==> w1.entity(o) == w0.entity(o),
        !w1.spec_node_of().contains_key(id),
        w1.spec_gs_len() == w0.spec_gs_len(),
        // w2 is what `destroy_entity_internal(id)` leaves of w1
        w2.wf(),
        w2.spec_entities().dom() == w1.spec_entities().dom().difference(w1.destroyed_by(id)),
        forall|o: EntityID| #[trigger] w2.spec_entities().contains_key(o) ==> w2.entity(o) == w1.entity(o)
            && w2.spec_entities()[o] == w1.spec_entities()[o],
        w2.spec_gs_len() == w1.spec_gs_len(),
    ensures
        w2.spec_entities() == w0.spec_entities(),
        forall|g: GlobalSystemID| g < w0.spec_gs_len() ==> #[trigger] w2.spec_gs_count()[g as int] == w0.spec_gs_count()[g as int],
{
    assert(w1.destroyed_by(id) =~= set![id]);
    assert(w2.spec_entities() =~= w0.spec_entities()) by {
        assert forall|o: EntityID| w2.spec_entities().dom().contains(o) <==> w0.spec_entities().dom().contains(o) by {}
        assert forall|o: EntityID| #[trigger] w2.spec_entities().contains_key(o) implies w2.spec_entities()[o] == w0.spec_entities()[o] by {}
    }
    assert forall|g: GlobalSystemID| g < w0.spec_gs_len() implies #[trigger] w2.spec_gs_count()[g as int] == w0.spec_gs_count()[g as int] by {
        assert(w2.spec_gs_count()[g as int] == w2.users(g).len());
        assert(w0.spec_gs_count()[g as int] == w0.users(g).len());
        assert forall|o: EntityID| #[trigger] w2.users(g).contains(o) <==> w0.users(g).contains(o) by {
            if w0.spec_entities().contains_key(o) {
                assert(w2.entity(o) == w1.entity(o));
            }
        }
        assert(w2.users(g) =~= w0.users(g));
    }
}

/// A layer that is attached on top of a stack and then detached leaves the
/// stack as it was, provided its identifier was not already in the stack.
pub proof fn law_detach_undoes_attach<L>(
    before: Seq<LayerContainer<L>>,
    attached: Seq<LayerContainer<L>>,
    id: LayerID,
)
    requires
        !stack_ids(before).contains(id),
        attached.len() == before.len() + 1,
        attached.subrange(0, before.len() as int) == before,
        stack_ids(attached) == stack_ids(before).push(id),
    ensures
        without_ids(attached, seq![id]) == before,
{
    let keep = |c: LayerContainer<L>| !seq![id].contains(c.id);
    assert(attached.drop_last() =~= before);
    assert(stack_ids(attached)[before.len() as int] == id);
    assert(attached.last().id == id);
    assert(seq![id][0] == id);
    reveal_with_fuel(Seq::filter, 1);
    assert(attached.filter(keep) == before.filter(keep));
    assert forall|i: int| 0 <= i < before.len() implies keep(#[trigger] before[i]) by {
        assert(stack_ids(before)[i] == before[i].id);
        if seq![id].contains(before[i].id) {
            let j = choose|j: int| 0 <= j < 1 && seq![id][j] == before[i].id;
            assert(stack_ids(before).contains(id));
        }
    }
    lemma_filter_keeps_all(before, keep);
}

/// Filtering by a predicate that every element meets changes nothing.
proof fn lemma_filter_keeps_all<A>(s: Seq<A>, p: spec_fn(A) -> bool)
    requires
        forall|i: int| 0 <= i < s.len() ==> p(#[trigger] s[i]),
    ensures
        s.filter(p) == s,
    decreases s.len(),
{
    reveal_with_fuel(Seq::filter, 1);
    if s.len() > 0 {
        lemma_filter_keeps_all(s.drop_last(), p);
        assert(s.drop_last().push(s.last()) =~= s);
    } else {
        assert(s =~= Seq::<A>::empty());
    }
}

} // verus!
