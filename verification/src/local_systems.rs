//! Local systems: functions that run on the datagroups of a single entity,
//! and the registry that describes them.
use crate::data_group::DataGroupID;
use crate::ids::IDLocator;
use crate::sorting::{sort_by_key, stable_sort_of, KeyedEntry};
use crate::toposort::{
    add_dependency_spec,
    counts_consistent, lemma_add_dependency_consistent, lemma_pop_all_consistent, pop_all_spec,
    predecessors_in, ready_items, successors_closed, toposort_add_dependency, toposort_len,
    toposort_new, toposort_nodes, toposort_pop_all,
};
use topological_sort::TopologicalSort;
use vstd::prelude::*;
use vstd::set_lib::*;

verus! {

pub type SystemClassID = u32;

pub const INVALID_SYSTEM_CLASS_ID: SystemClassID = 0xFFFF_FFFFu32;

pub type StageID = u8;

/// Number of stages supported by the engine.
pub const STAGE_COUNT: usize = 256usize;

/// A datagroup that a system reads, required or optional.
#[derive(Debug, Clone, Copy, PartialEq, Eq, Structural)]
pub enum Dependency {
    DataGroup(DataGroupID),
    OptionalDG(DataGroupID),
}

/// The datagroup named by a dependency, required or not.
pub open spec fn dependency_id(d: Dependency) -> DataGroupID {
    match d {
        Dependency::OptionalDG(id) => id,
        Dependency::DataGroup(id) => id,
    }
}

impl Dependency {
    pub fn unwrap(self) -> (r: DataGroupID)
        ensures
            r == dependency_id(self),
    {
        match self {
            Dependency::OptionalDG(d) => d,
            Dependency::DataGroup(d) => d,
        }
    }
}

/// Description of a local system. `F` is the type of its per-stage functions
/// and `S` the callback that receives the identifier assigned to the system.
pub struct LocalSystemRegistryEntry<F, S> {
    pub id: SystemClassID,
    pub name: &'static str,
    pub name_crc: u32,
    pub dependencies: Vec<Dependency>,
    pub functions: [Option<F>; STAGE_COUNT],
    pub before: Vec<SystemClassID>,
    pub after: Vec<SystemClassID>,
    pub set_id_fn: S,
}

impl<F, S> KeyedEntry for LocalSystemRegistryEntry<F, S> {
    open spec fn key(&self) -> u32 {
        self.id
    }

    fn entry_key(&self) -> (r: u32) {
        self.id
    }
}

/// Registry of all local systems.
pub struct LocalSystemRegistry<F, S> {
    entries: Vec<LocalSystemRegistryEntry<F, S>>,
    is_initialized: bool,
}

impl<F, S> LocalSystemRegistry<F, S> {
    /// The registered entries, in their current order.
    pub closed spec fn view(&self) -> Seq<LocalSystemRegistryEntry<F, S>> {
        self.entries@
    }

    pub closed spec fn spec_is_initialized(&self) -> bool {
        self.is_initialized
    }

    pub fn new() -> (r: Self)
        ensures
            r@ == Seq::<LocalSystemRegistryEntry<F, S>>::empty(),
            !r.spec_is_initialized(),
    {
        LocalSystemRegistry { entries: Vec::new(), is_initialized: false }
    }

    pub fn register(&mut self, entry: LocalSystemRegistryEntry<F, S>)
        ensures
            final(self)@ == old(self)@.push(entry),
            final(self).spec_is_initialized() == old(self).spec_is_initialized(),
    {
        self.entries.push(entry);
    }

    pub fn is_initialized(&self) -> (r: bool)
        ensures
            r == self.spec_is_initialized(),
    {
        self.is_initialized
    }

    /// Number of registered local systems.
    pub fn len(&self) -> (r: usize)
        ensures
            r == self@.len(),
    {
        self.entries.len()
    }

    /// The entry at position `id`.
    pub fn get_entry_by_id(&self, id: SystemClassID) -> (r: &LocalSystemRegistryEntry<F, S>)
        requires
            id < self@.len(),
        ensures
            *r == self@[id as int],
    {
        &self.entries[id as usize]
    }

    /// Get the entry for a specific local system.
    pub fn get_entry<L: IDLocator>(&self) -> (r: &LocalSystemRegistryEntry<F, S>)
        requires
            L::spec_get_id() < self@.len(),
        ensures
            *r == self@[L::spec_get_id() as int],
    {
        self.get_entry_by_id(L::get_id())
    }

    /// Set which systems the local system `L` runs before and after. Only
    /// allowed before the registry is initialized.
    pub fn set_dependencies<L: IDLocator>(
        &mut self,
        before: Vec<SystemClassID>,
        after: Vec<SystemClassID>,
    )
        requires
            !old(self).spec_is_initialized(),
            L::spec_get_id() < old(self)@.len(),
        ensures
            final(self).spec_is_initialized() == old(self).spec_is_initialized(),
            final(self)@.len() == old(self)@.len(),
            forall|i: int|
                0 <= i < old(self)@.len() && i != L::spec_get_id() ==> final(self)@[i] == old(
                    self,
                )@[i],
            final(self)@[L::spec_get_id() as int] == (LocalSystemRegistryEntry {
                before,
                after,
                ..old(self)@[L::spec_get_id() as int]
            }),
    {
        let index = L::get_id() as usize;
        let mut entry = self.entries.remove(index);
        entry.before = before;
        entry.after = after;
        self.entries.insert(index, entry);
    }
}


/// The node that every local system depends on, so that systems without
/// dependencies are ordered too. No system may use it as its name hash.
pub const SOURCE_NODE: u32 = 0u32;

/// The dependency links of one local system, as (before, after) pairs of name
/// hashes: the source node before the system, the system before each system of
/// its `before` list, and each system of its `after` list before it.
pub open spec fn entry_links<F, S>(e: LocalSystemRegistryEntry<F, S>) -> Seq<(u32, u32)> {
    seq![(SOURCE_NODE, e.name_crc)] + e.before@.map_values(|b: u32| (e.name_crc, b))
        + e.after@.map_values(|a: u32| (a, e.name_crc))
}

/// The links of the first `n` systems.
pub open spec fn links_upto<F, S>(entries: Seq<LocalSystemRegistryEntry<F, S>>, n: nat) -> Seq<(u32, u32)>
    decreases n,
{
    if n == 0 {
        Seq::empty()
    } else {
        links_upto(entries, (n - 1) as nat) + entry_links(entries[n - 1])
    }
}

/// All dependency links of the registered systems.
pub open spec fn all_links<F, S>(entries: Seq<LocalSystemRegistryEntry<F, S>>) -> Seq<(u32, u32)> {
    links_upto(entries, entries.len())
}

/// The system with name hash `p` must run before the one with name hash `x`.
pub open spec fn must_precede<F, S>(entries: Seq<LocalSystemRegistryEntry<F, S>>, p: u32, x: u32) -> bool {
    p != SOURCE_NODE && all_links(entries).contains((p, x))
}

/// The registered dependencies can be ordered: no name hash is the source
/// node, every system of an `after` list is registered, and there are fewer
/// than `u32::MAX / 2` links.
pub open spec fn dependencies_well_formed<F, S>(entries: Seq<LocalSystemRegistryEntry<F, S>>) -> bool {
    &&& 2 * all_links(entries).len() < u32::MAX
    &&& forall|i: int| 0 <= i < entries.len() ==> (#[trigger] entries[i]).name_crc != SOURCE_NODE
    &&& forall|i: int, j: int|
        0 <= i < entries.len() && 0 <= j < entries[i].before@.len() ==> #[trigger] entries[i].before@[j] != SOURCE_NODE
    &&& forall|i: int, j: int|
        0 <= i < entries.len() && 0 <= j < entries[i].after@.len() ==> exists|k: int|
            0 <= k < entries.len() && #[trigger] entries[k].name_crc == #[trigger] entries[i].after@[j]
}

/// `s` is a non-empty set of systems in which every system must run after
/// another system of the set: a cycle of dependencies.
pub open spec fn is_blocked_set<F, S>(entries: Seq<LocalSystemRegistryEntry<F, S>>, s: Set<u32>) -> bool {
    &&& s.len() > 0
    &&& s.finite()
    &&& forall|x: u32| #[trigger] s.contains(x) ==> exists|p: u32| s.contains(p) && must_precede(entries, p, x)
}

/// Every system named in a `before` list is registered.
pub open spec fn befores_registered<F, S>(entries: Seq<LocalSystemRegistryEntry<F, S>>) -> bool {
    forall|i: int, j: int|
        0 <= i < entries.len() && 0 <= j < entries[i].before@.len() ==> exists|k: int|
            0 <= k < entries.len() && #[trigger] entries[k].name_crc == #[trigger] entries[i].before@[j]
}

/// No two systems share a name hash.
pub open spec fn names_distinct<F, S>(entries: Seq<LocalSystemRegistryEntry<F, S>>) -> bool {
    forall|i: int, j: int|
        0 <= i < entries.len() && 0 <= j < entries.len() && i != j ==> #[trigger] entries[i].name_crc != #[trigger] entries[j].name_crc
}

/// The name hashes of the systems.
pub open spec fn name_set<F, S>(entries: Seq<LocalSystemRegistryEntry<F, S>>) -> Set<u32> {
    entries.map_values(|e: LocalSystemRegistryEntry<F, S>| e.name_crc).to_set()
}

/// The position of `x` in `order`.
pub open spec fn position_of(order: Seq<u32>, x: u32) -> int {
    choose|i: int| 0 <= i < order.len() && order[i] == x
}

/// `sorted` is `entries` with ids given by `set_toposort_ids` (the entries
/// with those ids are `ided`), sorted by id.
pub open spec fn ordered_by_dependencies<F, S>(
    entries: Seq<LocalSystemRegistryEntry<F, S>>,
    ided: Seq<LocalSystemRegistryEntry<F, S>>,
    sorted: Seq<LocalSystemRegistryEntry<F, S>>,
) -> bool {
    &&& ided.len() == entries.len()
    &&& forall|i: int| 0 <= i < entries.len() ==> #[trigger] ided[i] == (LocalSystemRegistryEntry {
        id: ided[i].id,
        ..entries[i]
    })
    &&& forall|i: int, j: int|
        0 <= i < entries.len() && 0 <= j < entries.len() && must_precede(entries, entries[i].name_crc, entries[j].name_crc)
            ==> #[trigger] ided[i].id < #[trigger] ided[j].id
    &&& forall|i: int, j: int|
        0 <= i < entries.len() && 0 <= j < entries.len() ==> (#[trigger] ided[i].id == #[trigger] ided[j].id
            <==> entries[i].name_crc == entries[j].name_crc)
    &&& stable_sort_of(ided, sorted)
}

/// A change of dependencies: the system with the id of `.0` runs before the
/// systems of `.1` and after those of `.2`.
pub type DependencyChange = (SystemClassID, Vec<SystemClassID>, Vec<SystemClassID>);

/// `entries` after the dependency changes of `changes`, applied in order.
pub open spec fn with_dependencies<F, S>(
    entries: Seq<LocalSystemRegistryEntry<F, S>>,
    changes: Seq<DependencyChange>,
) -> Seq<LocalSystemRegistryEntry<F, S>>
    decreases changes.len(),
{
    if changes.len() == 0 {
        entries
    } else {
        let prev = with_dependencies(entries, changes.drop_last());
        let c = changes.last();
        prev.update(c.0 as int, LocalSystemRegistryEntry { before: c.1, after: c.2, ..prev[c.0 as int] })
    }
}

/// Dependency changes touch only the `before` and `after` lists.
proof fn lemma_with_dependencies<F, S>(entries: Seq<LocalSystemRegistryEntry<F, S>>, changes: Seq<DependencyChange>)
    requires
        forall|k: int| 0 <= k < changes.len() ==> (#[trigger] changes[k]).0 < entries.len(),
    ensures
        with_dependencies(entries, changes).len() == entries.len(),
        forall|i: int| 0 <= i < entries.len() ==> {
            &&& (#[trigger] with_dependencies(entries, changes)[i]).id == entries[i].id
            &&& with_dependencies(entries, changes)[i].set_id_fn == entries[i].set_id_fn
            &&& with_dependencies(entries, changes)[i].name_crc == entries[i].name_crc
        },
    decreases changes.len(),
{
    if changes.len() > 0 {
        let rest = changes.drop_last();
        assert forall|k: int| 0 <= k < rest.len() implies (#[trigger] rest[k]).0 < entries.len() by {
            assert(rest[k] == changes[k]);
        }
        lemma_with_dependencies(entries, rest);
        assert(changes.last() == changes[changes.len() - 1]);
    }
}

/// The dependency links between local systems form a cycle.
#[derive(Debug, Clone, Copy)]
pub struct CyclicDependencies;

proof fn lemma_links_upto_len<F, S>(entries: Seq<LocalSystemRegistryEntry<F, S>>, i: nat, n: nat)
    requires
        i <= n <= entries.len(),
    ensures
        links_upto(entries, i).len() <= links_upto(entries, n).len(),
        links_upto(entries, n).len() >= n,
    decreases n,
{
    if n > 0 {
        if i < n {
            lemma_links_upto_len(entries, i, (n - 1) as nat);
        } else {
            lemma_links_upto_len(entries, (n - 1) as nat, (n - 1) as nat);
        }
    }
}

proof fn lemma_links_prefix<F, S>(entries: Seq<LocalSystemRegistryEntry<F, S>>, i: nat, n: nat, l: (u32, u32))
    requires
        i <= n <= entries.len(),
        links_upto(entries, i).contains(l),
    ensures
        links_upto(entries, n).contains(l),
    decreases n - i,
{
    if i < n {
        lemma_links_prefix(entries, i, (n - 1) as nat, l);
        let a = links_upto(entries, (n - 1) as nat);
        let k = choose|k: int| 0 <= k < a.len() && a[k] == l;
        assert((a + entry_links(entries[n - 1]))[k] == l);
    }
}

/// A system that names another in its `after` list must run after it, and
/// one that names another in its `before` list must run before it.
pub proof fn law_declared_dependencies_precede<F, S>(entries: Seq<LocalSystemRegistryEntry<F, S>>, i: int, j: int)
    requires
        0 <= i < entries.len(),
        0 <= j < entries.len(),
        entries[i].name_crc != SOURCE_NODE,
    ensures
        entries[j].after@.contains(entries[i].name_crc) ==> must_precede(entries, entries[i].name_crc, entries[j].name_crc),
        entries[i].before@.contains(entries[j].name_crc) ==> must_precede(entries, entries[i].name_crc, entries[j].name_crc),
{
    let ci = entries[i].name_crc;
    let cj = entries[j].name_crc;
    if entries[j].after@.contains(ci) {
        let k = choose|k: int| 0 <= k < entries[j].after@.len() && entries[j].after@[k] == ci;
        let links = entry_links(entries[j]);
        let head = seq![(SOURCE_NODE, cj)] + entries[j].before@.map_values(|b: u32| (cj, b));
        assert(links[head.len() + k] == (ci, cj));
        let upto = links_upto(entries, (j + 1) as nat);
        assert(upto == links_upto(entries, j as nat) + links);
        assert(upto[links_upto(entries, j as nat).len() + head.len() + k] == (ci, cj));
        lemma_links_prefix(entries, (j + 1) as nat, entries.len(), (ci, cj));
    }
    if entries[i].before@.contains(cj) {
        let k = choose|k: int| 0 <= k < entries[i].before@.len() && entries[i].before@[k] == cj;
        let links = entry_links(entries[i]);
        assert(links[1 + k] == (ci, cj));
        let upto = links_upto(entries, (i + 1) as nat);
        assert(upto == links_upto(entries, i as nat) + links);
        assert(upto[links_upto(entries, i as nat).len() + 1 + k] == (ci, cj));
        lemma_links_prefix(entries, (i + 1) as nat, entries.len(), (ci, cj));
    }
}

proof fn lemma_link_origin<F, S>(entries: Seq<LocalSystemRegistryEntry<F, S>>, n: nat, l: (u32, u32))
    requires
        n <= entries.len(),
        links_upto(entries, n).contains(l),
    ensures
        exists|i: int| 0 <= i < n && (#[trigger] entry_links(entries[i])).contains(l),
    decreases n,
{
    if n > 0 {
        let a = links_upto(entries, (n - 1) as nat);
        let b = entry_links(entries[n - 1]);
        let k = choose|k: int| 0 <= k < (a + b).len() && (a + b)[k] == l;
        if k < a.len() {
            assert(a[k] == l);
            lemma_link_origin(entries, (n - 1) as nat, l);
        } else {
            assert(b[k - a.len()] == l);
        }
    }
}

proof fn lemma_source_link<F, S>(entries: Seq<LocalSystemRegistryEntry<F, S>>, k: int)
    requires
        0 <= k < entries.len(),
    ensures
        all_links(entries).contains((SOURCE_NODE, entries[k].name_crc)),
{
    let l = (SOURCE_NODE, entries[k].name_crc);
    assert(entry_links(entries[k])[0] == l);
    assert(links_upto(entries, (k + 1) as nat) == links_upto(entries, k as nat) + entry_links(entries[k]));
    assert(links_upto(entries, (k + 1) as nat)[links_upto(entries, k as nat).len() as int] == l);
    lemma_links_prefix(entries, (k + 1) as nat, entries.len(), l);
}

/// No link leads into the source node.
proof fn lemma_no_link_into_source<F, S>(entries: Seq<LocalSystemRegistryEntry<F, S>>, p: u32)
    requires
        dependencies_well_formed(entries),
    ensures
        !all_links(entries).contains((p, SOURCE_NODE)),
{
    let l = (p, SOURCE_NODE);
    if all_links(entries).contains(l) {
        lemma_link_origin(entries, entries.len(), l);
        let i = choose|i: int| 0 <= i < entries.len() && (#[trigger] entry_links(entries[i])).contains(l);
        let e = entries[i];
        let el = entry_links(e);
        let t = choose|t: int| 0 <= t < el.len() && el[t] == l;
        let nb = e.before@.len() as int;
        assert(entries[i].name_crc != SOURCE_NODE);
        if 1 <= t < 1 + nb {
            assert(el[t] == (e.name_crc, e.before@[t - 1]));
            assert(entries[i].before@[t - 1] != SOURCE_NODE);
        } else if t >= 1 + nb {
            assert(el[t] == (e.after@[t - 1 - nb], e.name_crc));
        }
    }
}

/// In the sorter built from all links, every item but the source node has a
/// predecessor.
proof fn lemma_item_has_predecessor<F, S>(entries: Seq<LocalSystemRegistryEntry<F, S>>, m: Map<u32, (nat, Set<u32>)>, x: u32)
    requires
        dependencies_well_formed(entries),
        counts_consistent(m),
        m.contains_key(x),
        x != SOURCE_NODE,
        forall|p: u32, s: u32| #[trigger] m.contains_key(p) && #[trigger] m[p].1.contains(s) <==> all_links(entries).contains((p, s)),
        forall|y: u32| #[trigger] m.contains_key(y) <==> exists|l: (u32, u32)| all_links(entries).contains(l) && (l.0 == y || l.1 == y),
    ensures
        m[x].0 > 0,
{
    let links = all_links(entries);
    let l = choose|l: (u32, u32)| links.contains(l) && (l.0 == x || l.1 == x);
    lemma_link_origin(entries, entries.len(), l);
    let i = choose|i: int| 0 <= i < entries.len() && (#[trigger] entry_links(entries[i])).contains(l);
    let e = entries[i];
    let el = entry_links(e);
    let t = choose|t: int| 0 <= t < el.len() && el[t] == l;
    let nb = e.before@.len() as int;
    // Find a link into `x`.
    let p: u32 = if x == e.name_crc {
        lemma_source_link(entries, i);
        SOURCE_NODE
    } else if 1 <= t < 1 + nb {
        assert(el[t] == (e.name_crc, e.before@[t - 1]));
        assert(links.contains((e.name_crc, x)));
        e.name_crc
    } else {
        assert(t >= 1 + nb);
        assert(el[t] == (e.after@[t - 1 - nb], e.name_crc));
        assert(x == e.after@[t - 1 - nb]);
        let k = choose|k: int| 0 <= k < entries.len() && #[trigger] entries[k].name_crc == e.after@[t - 1 - nb];
        lemma_source_link(entries, k);
        SOURCE_NODE
    };
    assert(links.contains((p, x)));
    assert(m.contains_key(p)) by {
        assert(links.contains((p, x)) && ((p, x).0 == p || (p, x).1 == p));
    }
    assert(predecessors_in(m, x).contains(p));
    vstd::set_lib::lemma_set_subset_finite(m.dom(), predecessors_in(m, x));
}

/// When no item is ready, the remaining items form a cycle.
proof fn lemma_blocked_set<F, S>(entries: Seq<LocalSystemRegistryEntry<F, S>>, m: Map<u32, (nat, Set<u32>)>, links: Seq<(u32, u32)>)
    requires
        links == all_links(entries),
        counts_consistent(m),
        m.dom().len() > 0,
        !m.contains_key(SOURCE_NODE),
        ready_items(m) == Set::<u32>::empty(),
        forall|p: u32, s: u32| #![trigger m[p].1.contains(s)] #![trigger links.contains((p, s)), m.contains_key(p)] m.contains_key(p) ==> (m[p].1.contains(s) <==> links.contains((p, s))),
    ensures
        is_blocked_set(entries, m.dom()),
{
    assert forall|x: u32| #[trigger] m.dom().contains(x) implies exists|p: u32| m.dom().contains(p) && must_precede(entries, p, x) by {
        assert(!ready_items(m).contains(x));
        assert(m[x].0 != 0);
        let ps = predecessors_in(m, x);
        assert(ps.len() > 0);
        vstd::set_lib::lemma_set_subset_finite(m.dom(), ps);
        let p = ps.choose();
        assert(ps.contains(p));
        assert(m[p].1.contains(x));
        assert(must_precede(entries, p, x));
    }
}

/// When every `before` target is registered, every end of a link other than
/// the source node is a registered name hash.
proof fn lemma_link_end_registered<F, S>(entries: Seq<LocalSystemRegistryEntry<F, S>>, l: (u32, u32), x: u32)
    requires
        dependencies_well_formed(entries),
        befores_registered(entries),
        all_links(entries).contains(l),
        l.0 == x || l.1 == x,
        x != SOURCE_NODE,
    ensures
        name_set(entries).contains(x),
{
    lemma_link_origin(entries, entries.len(), l);
    let i = choose|i: int| 0 <= i < entries.len() && (#[trigger] entry_links(entries[i])).contains(l);
    let e = entries[i];
    let el = entry_links(e);
    let t = choose|t: int| 0 <= t < el.len() && el[t] == l;
    let nb = e.before@.len() as int;
    let names = entries.map_values(|e: LocalSystemRegistryEntry<F, S>| e.name_crc);
    let k: int = if x == e.name_crc {
        i
    } else if t == 0 {
        assert(el[0] == (SOURCE_NODE, e.name_crc));
        i
    } else if t < 1 + nb {
        assert(el[t] == (e.name_crc, e.before@[t - 1]));
        assert(x == entries[i].before@[t - 1]);
        choose|k: int| 0 <= k < entries.len() && #[trigger] entries[k].name_crc == entries[i].before@[t - 1]
    } else {
        assert(el[t] == (e.after@[t - 1 - nb], e.name_crc));
        assert(x == entries[i].after@[t - 1 - nb]);
        choose|k: int| 0 <= k < entries.len() && #[trigger] entries[k].name_crc == entries[i].after@[t - 1 - nb]
    };
    assert(names[k] == x);
    assert(names.contains(x));
}

/// Strictly increasing values below `n`, `n` of them, are `0..n`.
proof fn lemma_increasing_below_len(ks: Seq<int>)
    requires
        forall|a: int, b: int| 0 <= a < b < ks.len() ==> ks[a] < ks[b],
        forall|i: int| 0 <= i < ks.len() ==> 0 <= #[trigger] ks[i] < ks.len(),
    ensures
        forall|i: int| 0 <= i < ks.len() ==> #[trigger] ks[i] == i,
{
    assert forall|i: int| 0 <= i < ks.len() implies #[trigger] ks[i] == i by {
        lemma_increasing_at_least(ks, i);
        lemma_increasing_at_most(ks, i);
    }
}

proof fn lemma_increasing_at_least(ks: Seq<int>, i: int)
    requires
        forall|a: int, b: int| 0 <= a < b < ks.len() ==> ks[a] < ks[b],
        forall|j: int| 0 <= j < ks.len() ==> 0 <= #[trigger] ks[j],
        0 <= i < ks.len(),
    ensures
        ks[i] >= i,
    decreases i,
{
    if i > 0 {
        lemma_increasing_at_least(ks, i - 1);
    }
}

proof fn lemma_increasing_at_most(ks: Seq<int>, i: int)
    requires
        forall|a: int, b: int| 0 <= a < b < ks.len() ==> ks[a] < ks[b],
        forall|j: int| 0 <= j < ks.len() ==> #[trigger] ks[j] < ks.len(),
        0 <= i < ks.len(),
    ensures
        ks[i] <= i,
    decreases ks.len() - i,
{
    if i < ks.len() - 1 {
        lemma_increasing_at_most(ks, i + 1);
    }
}

/// Entries with distinct ids below their number, sorted by id, have their
/// position as id.
proof fn lemma_sorted_distinct_ids<F, S>(ided: Seq<LocalSystemRegistryEntry<F, S>>, sorted: Seq<LocalSystemRegistryEntry<F, S>>)
    requires
        stable_sort_of(ided, sorted),
        forall|i: int| 0 <= i < ided.len() ==> #[trigger] ided[i].id < ided.len(),
        forall|i: int, j: int| 0 <= i < ided.len() && 0 <= j < ided.len() && i != j ==> #[trigger] ided[i].id != #[trigger] ided[j].id,
    ensures
        sorted.len() == ided.len(),
        forall|i: int| 0 <= i < sorted.len() ==> #[trigger] sorted[i].id == i,
{
    broadcast use vstd::seq_lib::group_to_multiset_ensures;
    assert forall|i: int, j: int| 0 <= i < ided.len() && 0 <= j < ided.len() && i != j implies ided[i] != ided[j] by {
        assert(ided[i].id != ided[j].id);
    }
    assert(ided.no_duplicates());
    ided.lemma_multiset_has_no_duplicates();
    sorted.lemma_multiset_has_no_duplicates_conv();
    assert(sorted.len() == ided.len()) by {
        assert(sorted.to_multiset().len() == ided.to_multiset().len());
    }
    assert forall|i: int| 0 <= i < sorted.len() implies ided.contains(#[trigger] sorted[i]) by {
        assert(sorted.to_multiset().count(sorted[i]) > 0);
    }
    let ks = Seq::new(sorted.len(), |i: int| sorted[i].id as int);
    assert forall|i: int| 0 <= i < ks.len() implies 0 <= #[trigger] ks[i] < ks.len() by {
        assert(ided.contains(sorted[i]));
    }
    assert forall|a: int, b: int| 0 <= a < b < ks.len() implies ks[a] < ks[b] by {
        assert(sorted[a].id <= sorted[b].id);
        if sorted[a].id == sorted[b].id {
            assert(ided.contains(sorted[a]) && ided.contains(sorted[b]));
            let x = choose|x: int| 0 <= x < ided.len() && ided[x] == sorted[a];
            let y = choose|y: int| 0 <= y < ided.len() && ided[y] == sorted[b];
            assert(x == y);
            assert(sorted[a] != sorted[b]);
        }
    }
    lemma_increasing_below_len(ks);
    assert forall|i: int| 0 <= i < sorted.len() implies #[trigger] sorted[i].id == i by {
        assert(ks[i] == i);
    }
}

proof fn lemma_position_of_unique(order: Seq<u32>, x: u32, j: int)
    requires
        order.no_duplicates(),
        0 <= j < order.len(),
        order[j] == x,
    ensures
        position_of(order, x) == j,
{
    let p = position_of(order, x);
    assert(0 <= p < order.len() && order[p] == x);
}

/// The first position of `x` in `order`.
fn find_position(order: &Vec<u32>, x: u32) -> (j: usize)
    requires
        order@.contains(x),
    ensures
        j < order@.len(),
        order@[j as int] == x,
{
    let mut j: usize = 0;
    while j < order.len()
        invariant
            order@.contains(x),
            j <= order@.len(),
            forall|t: int| 0 <= t < j ==> order@[t] != x,
        decreases order@.len() - j,
    {
        if order[j] == x {
            return j;
        }
        j = j + 1;
    }
    proof {
        let t = choose|t: int| 0 <= t < order@.len() && order@[t] == x;
        assert(order@[t] != x);
    }
    0
}

impl<F, S: Fn(SystemClassID)> LocalSystemRegistry<F, S> {
    /// Set ids for local systems based on the topological ordering generated by
    /// the `before` and `after` dependencies: the position of each system in
    /// an order where every system comes after the systems it must run after.
    /// Systems that become ready together are ordered by name hash. Each
    /// system's `set_id_fn` receives its id. Fails, changing nothing, when the
    /// dependencies form a cycle.
    #[verifier::spinoff_prover]
    pub fn set_toposort_ids(&mut self) -> (r: Result<(), CyclicDependencies>)
        requires
            dependencies_well_formed(old(self)@),
            forall|i: int, id: u32| 0 <= i < old(self)@.len() ==> #[trigger] call_requires(old(self)@[i].set_id_fn, (id,)),
        ensures
            final(self).spec_is_initialized() == old(self).spec_is_initialized(),
            final(self)@.len() == old(self)@.len(),
            r is Err ==> final(self)@ == old(self)@ && exists|s: Set<u32>| is_blocked_set(old(self)@, s),
            r is Ok ==> {
                &&& forall|i: int| 0 <= i < old(self)@.len() ==> #[trigger] final(self)@[i] == (LocalSystemRegistryEntry {
                    id: final(self)@[i].id,
                    ..old(self)@[i]
                })
                &&& forall|i: int, j: int|
                    0 <= i < old(self)@.len() && 0 <= j < old(self)@.len() && must_precede(old(self)@, old(self)@[i].name_crc, old(self)@[j].name_crc)
                        ==> #[trigger] final(self)@[i].id < #[trigger] final(self)@[j].id
                &&& forall|i: int, j: int|
                    0 <= i < old(self)@.len() && 0 <= j < old(self)@.len() ==> (#[trigger] final(self)@[i].id == #[trigger] final(self)@[j].id
                        <==> old(self)@[i].name_crc == old(self)@[j].name_crc)
                &&& forall|i: int| 0 <= i < old(self)@.len() ==> call_ensures(old(self)@[i].set_id_fn, (#[trigger] final(self)@[i].id,), ())
                &&& forall|i: int, j: int|
                    0 <= i < old(self)@.len() && 0 <= j < old(self)@.len() && old(self)@[j].after@.contains(old(self)@[i].name_crc)
                        ==> #[trigger] final(self)@[i].id < #[trigger] final(self)@[j].id
                &&& forall|i: int, j: int|
                    0 <= i < old(self)@.len() && 0 <= j < old(self)@.len() && old(self)@[i].before@.contains(old(self)@[j].name_crc)
                        ==> #[trigger] final(self)@[i].id < #[trigger] final(self)@[j].id
                &&& befores_registered(old(self)@) ==> forall|i: int| 0 <= i < old(self)@.len() ==> #[trigger] final(self)@[i].id < old(self)@.len()
            },
    {
        let ghost entries = self.entries@;
        let mut ts: TopologicalSort<u32> = toposort_new();
        let ghost mut seen: Seq<(u32, u32)> = Seq::empty();
        proof {
            assert(toposort_nodes(ts).dom() =~= Set::<u32>::empty());
        }
        let mut i: usize = 0;
        while i < self.entries.len()
            invariant
                self.entries@ == entries,
                dependencies_well_formed(entries),
                i <= entries.len(),
                seen == links_upto(entries, i as nat),
                counts_consistent(toposort_nodes(ts)),
                successors_closed(toposort_nodes(ts)),
                forall|p: u32, s: u32|
                    #[trigger] toposort_nodes(ts).contains_key(p) && #[trigger] toposort_nodes(ts)[p].1.contains(s) <==> seen.contains((p, s)),
                forall|x: u32|
                    #[trigger] toposort_nodes(ts).contains_key(x) <==> exists|l: (u32, u32)| seen.contains(l) && (l.0 == x || l.1 == x),
                toposort_nodes(ts).dom().len() <= 2 * seen.len(),
            decreases entries.len() - i,
        {
            let crc = self.entries[i].name_crc;
            proof {
                lemma_links_upto_len(entries, (i + 1) as nat, entries.len());
            }
            let ghost base = seen;
            self.add_link(&mut ts, SOURCE_NODE, crc, Ghost(seen));
            proof {
                seen = seen.push((SOURCE_NODE, crc));
            }
            let mut j: usize = 0;
            while j < self.entries[i].before.len()
                invariant
                    self.entries@ == entries,
                    dependencies_well_formed(entries),
                    i < entries.len(),
                    crc == entries[i as int].name_crc,
                    base == links_upto(entries, i as nat),
                    j <= entries[i as int].before@.len(),
                    seen == base + seq![(SOURCE_NODE, crc)] + entries[i as int].before@.take(j as int).map_values(|b: u32| (crc, b)),
                    counts_consistent(toposort_nodes(ts)),
                    successors_closed(toposort_nodes(ts)),
                    forall|p: u32, s: u32|
                        #[trigger] toposort_nodes(ts).contains_key(p) && #[trigger] toposort_nodes(ts)[p].1.contains(s) <==> seen.contains((p, s)),
                    forall|x: u32|
                        #[trigger] toposort_nodes(ts).contains_key(x) <==> exists|l: (u32, u32)| seen.contains(l) && (l.0 == x || l.1 == x),
                    toposort_nodes(ts).dom().len() <= 2 * seen.len(),
                    seen.len() <= links_upto(entries, (i + 1) as nat).len(),
                    links_upto(entries, (i + 1) as nat).len() <= all_links(entries).len(),
                decreases entries[i as int].before@.len() - j,
            {
                let b = self.entries[i].before[j];
                self.add_link(&mut ts, crc, b, Ghost(seen));
                proof {
                    assert(entries[i as int].before@.take(j as int + 1) =~= entries[i as int].before@.take(j as int).push(b));
                    seen = seen.push((crc, b));
                    assert(seen =~= base + seq![(SOURCE_NODE, crc)] + entries[i as int].before@.take(j as int + 1).map_values(|b: u32| (crc, b)));
                }
                j = j + 1;
            }
            let ghost mid = seen;
            proof {
                assert(entries[i as int].before@.take(j as int) =~= entries[i as int].before@);
            }
            let mut k: usize = 0;
            while k < self.entries[i].after.len()
                invariant
                    self.entries@ == entries,
                    dependencies_well_formed(entries),
                    i < entries.len(),
                    crc == entries[i as int].name_crc,
                    base == links_upto(entries, i as nat),
                    mid == base + seq![(SOURCE_NODE, crc)] + entries[i as int].before@.map_values(|b: u32| (crc, b)),
                    k <= entries[i as int].after@.len(),
                    seen == mid + entries[i as int].after@.take(k as int).map_values(|a: u32| (a, crc)),
                    counts_consistent(toposort_nodes(ts)),
                    successors_closed(toposort_nodes(ts)),
                    forall|p: u32, s: u32|
                        #[trigger] toposort_nodes(ts).contains_key(p) && #[trigger] toposort_nodes(ts)[p].1.contains(s) <==> seen.contains((p, s)),
                    forall|x: u32|
                        #[trigger] toposort_nodes(ts).contains_key(x) <==> exists|l: (u32, u32)| seen.contains(l) && (l.0 == x || l.1 == x),
                    toposort_nodes(ts).dom().len() <= 2 * seen.len(),
                    seen.len() <= links_upto(entries, (i + 1) as nat).len(),
                    links_upto(entries, (i + 1) as nat).len() <= all_links(entries).len(),
                decreases entries[i as int].after@.len() - k,
            {
                let a = self.entries[i].after[k];
                self.add_link(&mut ts, a, crc, Ghost(seen));
                proof {
                    assert(entries[i as int].after@.take(k as int + 1) =~= entries[i as int].after@.take(k as int).push(a));
                    seen = seen.push((a, crc));
                    assert(seen =~= mid + entries[i as int].after@.take(k as int + 1).map_values(|a: u32| (a, crc)));
                }
                k = k + 1;
            }
            proof {
                assert(entries[i as int].after@.take(k as int) =~= entries[i as int].after@);
                assert(seen =~= links_upto(entries, (i + 1) as nat));
            }
            i = i + 1;
        }
        // Every item is now in the sorter; pop the source node first.
        let ghost links = all_links(entries);
        let ghost m0 = toposort_nodes(ts);
        let ghost dom0_len = m0.dom().len();
        proof {
            lemma_pop_all_consistent(m0);
            lemma_links_upto_len(entries, entries.len(), entries.len());
            assert forall|x: u32| #[trigger] m0.contains_key(x) && x != SOURCE_NODE implies m0[x].0 > 0 by {
                lemma_item_has_predecessor(entries, m0, x);
            }
        }
        let first = toposort_pop_all(&mut ts);
        let ghost ready0 = ready_items(m0);
        let ghost mut popped: Set<u32> = ready0;
        let ghost mut rank: Map<u32, nat> = Map::new(|x: u32| ready0.contains(x), |x: u32| 0nat);
        let ghost mut batch: nat = 1;
        let mut order: Vec<u32> = Vec::new();
        proof {
            assert forall|x: u32| ready0.contains(x) implies x == SOURCE_NODE by {
                if x != SOURCE_NODE {
                    assert(m0[x].0 > 0);
                }
            }
            if m0.contains_key(SOURCE_NODE) {
                assert(predecessors_in(m0, SOURCE_NODE) =~= Set::<u32>::empty()) by {
                    assert forall|q: u32| !predecessors_in(m0, SOURCE_NODE).contains(q) by {
                        lemma_no_link_into_source(entries, q);
                    }
                }
                assert(ready0.contains(SOURCE_NODE));
            }
            assert forall|p: u32, x: u32|
                #[trigger] links.contains((p, x)) && popped.contains(x) implies popped.contains(p) && rank[p] < rank[x] by {
                lemma_no_link_into_source(entries, p);
            }
            let m = toposort_nodes(ts);
            assert(m.dom() =~= m0.dom().difference(ready0));
            vstd::set_lib::lemma_set_subset_finite(m0.dom(), ready0);
            vstd::set_lib::lemma_set_difference_len(m0.dom(), ready0);
        }
        while toposort_len(&ts) > 0
            invariant
                self.entries@ == entries,
                dependencies_well_formed(entries),
                links == all_links(entries),
                2 * links.len() < u32::MAX,
                dom0_len <= 2 * links.len(),
                forall|x: u32| ready0.contains(x) ==> x == SOURCE_NODE,
                counts_consistent(toposort_nodes(ts)),
                !toposort_nodes(ts).contains_key(SOURCE_NODE),
                forall|p: u32, s: u32|
                    #![trigger toposort_nodes(ts)[p].1.contains(s)]
                    #![trigger links.contains((p, s)), toposort_nodes(ts).contains_key(p)]
                    toposort_nodes(ts).contains_key(p) ==> (toposort_nodes(ts)[p].1.contains(s) <==> links.contains((p, s))),
                forall|p: u32, s: u32|
                    #[trigger] links.contains((p, s)) ==> (toposort_nodes(ts).contains_key(p) || popped.contains(p)) && (
                    toposort_nodes(ts).contains_key(s) || popped.contains(s)),
                forall|x: u32| !(#[trigger] toposort_nodes(ts).contains_key(x) && popped.contains(x)),
                forall|x: u32| #[trigger] popped.contains(x) <==> ready0.contains(x) || order@.contains(x),
                order@.no_duplicates(),
                !order@.contains(SOURCE_NODE),
                forall|p: u32, x: u32|
                    #[trigger] links.contains((p, x)) && popped.contains(x) ==> popped.contains(p) && rank[p] < rank[x],
                forall|x: u32| #[trigger] popped.contains(x) ==> rank.contains_key(x) && rank[x] < batch,
                forall|a: int, b: int| 0 <= a < b < order@.len() ==> rank[#[trigger] order@[a]] <= rank[#[trigger] order@[b]],
                toposort_nodes(ts).dom().len() + order@.len() <= dom0_len,
                forall|x: u32| #[trigger] toposort_nodes(ts).contains_key(x) ==> m0.contains_key(x),
                forall|x: u32| #[trigger] order@.contains(x) ==> m0.contains_key(x),
            decreases toposort_nodes(ts).dom().len(),
        {
            let ghost m = toposort_nodes(ts);
            proof {
                lemma_pop_all_consistent(m);
            }
            let mut batch_items = toposort_pop_all(&mut ts);
            let ghost ready = ready_items(m);
            if batch_items.len() == 0 {
                proof {
                    assert(ready =~= Set::<u32>::empty()) by {
                        assert(batch_items@.to_set() =~= Set::<u32>::empty());
                    }
                    lemma_blocked_set(entries, m, links);
                }
                return Err(CyclicDependencies);
            }
            proof {
                batch_items@.unique_seq_to_set();
            }
            let ghost unsorted = batch_items@;
            sort_by_key(&mut batch_items);
            proof {
                unsorted.lemma_multiset_has_no_duplicates();
                batch_items@.lemma_multiset_has_no_duplicates_conv();
                assert forall|x: u32| batch_items@.contains(x) <==> unsorted.contains(x) by {
                    batch_items@.to_multiset_ensures();
                    unsorted.to_multiset_ensures();
                    assert(batch_items@.to_multiset() == unsorted.to_multiset());
                    assert(batch_items@.to_multiset().count(x) == unsorted.to_multiset().count(x));
                }
                assert(batch_items@.to_set() =~= ready);
                let old_order = order@;
                let new_rank = rank.union_prefer_right(Map::new(|x: u32| ready.contains(x), |x: u32| batch));
                let new_popped = popped.union(ready);
                let mn = pop_all_spec(m);
                // Items just popped had no remaining predecessor: every item that
                // must precede them was popped in an earlier batch.
                assert forall|p: u32, x: u32|
                    #[trigger] links.contains((p, x)) && new_popped.contains(x) implies new_popped.contains(p) && new_rank[p] < new_rank[x] by {
                    if ready.contains(x) {
                        if m.contains_key(p) {
                            assert(m[p].1.contains(x));
                            assert(predecessors_in(m, x).contains(p));
                            vstd::set_lib::lemma_set_subset_finite(m.dom(), predecessors_in(m, x));
                        }
                        assert(popped.contains(p));
                    }
                }
                assert forall|x: u32| #[trigger] new_popped.contains(x) <==> ready0.contains(x) || (old_order + batch_items@).contains(x) by {
                    if (old_order + batch_items@).contains(x) {
                        let k = choose|k: int| 0 <= k < (old_order + batch_items@).len() && (old_order + batch_items@)[k] == x;
                        if k < old_order.len() {
                            assert(old_order[k] == x);
                        } else {
                            assert(batch_items@[k - old_order.len()] == x);
                        }
                    }
                    if old_order.contains(x) {
                        let k = choose|k: int| 0 <= k < old_order.len() && old_order[k] == x;
                        assert((old_order + batch_items@)[k] == x);
                    }
                    if ready.contains(x) {
                        assert(batch_items@.contains(x));
                        let k = choose|k: int| 0 <= k < batch_items@.len() && batch_items@[k] == x;
                        assert((old_order + batch_items@)[old_order.len() + k] == x);
                    }
                }
                assert forall|a: int, b: int| 0 <= a < b < (old_order + batch_items@).len() implies new_rank[#[trigger] (old_order + batch_items@)[a]]
                    <= new_rank[#[trigger] (old_order + batch_items@)[b]] by {
                    let s = old_order + batch_items@;
                    if b < old_order.len() {
                        assert(s[a] == old_order[a] && s[b] == old_order[b]);
                        assert(old_order.contains(old_order[a]) && old_order.contains(old_order[b]));
                        assert(popped.contains(old_order[a]) && popped.contains(old_order[b]));
                        assert(!ready.contains(old_order[a]) && !ready.contains(old_order[b]));
                        assert(rank[old_order[a]] <= rank[old_order[b]]);
                        assert(new_rank[s[a]] == rank[old_order[a]]);
                        assert(new_rank[s[b]] == rank[old_order[b]]);
                    } else if a < old_order.len() {
                        assert(s[a] == old_order[a]);
                        assert(old_order.contains(old_order[a]));
                        assert(popped.contains(old_order[a]));
                        assert(!ready.contains(old_order[a]));
                        assert(s[b] == batch_items@[b - old_order.len()]);
                        assert(batch_items@.contains(s[b]));
                        assert(batch_items@.to_set().contains(s[b]));
                        assert(ready.contains(s[b]));
                        assert(new_rank[s[a]] == rank[old_order[a]]);
                        assert(rank[old_order[a]] < batch);
                        assert(new_rank[s[b]] == batch);
                    } else {
                        assert(s[a] == batch_items@[a - old_order.len()]);
                        assert(s[b] == batch_items@[b - old_order.len()]);
                        assert(batch_items@.contains(s[a]) && batch_items@.contains(s[b]));
                        assert(batch_items@.to_set().contains(s[a]) && batch_items@.to_set().contains(s[b]));
                        assert(new_rank[s[a]] == batch);
                        assert(new_rank[s[b]] == batch);
                    }
                }
                assert((old_order + batch_items@).no_duplicates()) by {
                    assert forall|a: int, b: int| 0 <= a < b < (old_order + batch_items@).len() implies (old_order + batch_items@)[a]
                        != (old_order + batch_items@)[b] by {
                        let s = old_order + batch_items@;
                        if a < old_order.len() && b >= old_order.len() {
                            assert(old_order.contains(s[a]));
                            assert(batch_items@.contains(s[b]));
                        }
                    }
                }
                assert forall|x: u32| #[trigger] (old_order + batch_items@).contains(x) implies m0.contains_key(x) by {
                    let k = choose|k: int| 0 <= k < (old_order + batch_items@).len() && (old_order + batch_items@)[k] == x;
                    if k < old_order.len() {
                        assert(old_order[k] == x);
                        assert(old_order.contains(x));
                    } else {
                        assert(batch_items@[k - old_order.len()] == x);
                        assert(batch_items@.contains(x));
                        assert(batch_items@.to_set().contains(x));
                        assert(m.contains_key(x));
                    }
                }
                assert(mn.dom() =~= m.dom().difference(ready));
                vstd::set_lib::lemma_set_subset_finite(m.dom(), ready);
                vstd::set_lib::lemma_set_difference_len(m.dom(), ready);
                assert(m.dom().intersect(ready) =~= ready);
                assert(unsorted.to_set() == ready);
                assert(unsorted.len() == ready.len());
                assert(batch_items@.len() == unsorted.len()) by {
                    batch_items@.to_multiset_ensures();
                    unsorted.to_multiset_ensures();
                }
                assert(mn.dom().len() == m.dom().len() - ready.len());
                assert(toposort_nodes(ts) == mn);
                assert(!batch_items@.contains(SOURCE_NODE)) by {
                    if batch_items@.contains(SOURCE_NODE) {
                        assert(batch_items@.to_set().contains(SOURCE_NODE));
                    }
                }
                assert(!(old_order + batch_items@).contains(SOURCE_NODE)) by {
                    if (old_order + batch_items@).contains(SOURCE_NODE) {
                        let k = choose|k: int| 0 <= k < (old_order + batch_items@).len() && (old_order + batch_items@)[k] == SOURCE_NODE;
                        if k < old_order.len() {
                            assert(old_order[k] == SOURCE_NODE);
                        } else {
                            assert(batch_items@[k - old_order.len()] == SOURCE_NODE);
                        }
                    }
                }
                rank = new_rank;
                popped = new_popped;
                batch = batch + 1;
            }
            order.append(&mut batch_items);
        }
        // Every system's name hash is now in `order`; its id is its position there.
        proof {
            if befores_registered(entries) {
                assert forall|x: u32| order@.to_set().contains(x) implies name_set(entries).contains(x) by {
                    assert(order@.contains(x));
                    assert(m0.contains_key(x));
                    let l = choose|l: (u32, u32)| links.contains(l) && (l.0 == x || l.1 == x);
                    lemma_link_end_registered(entries, l, x);
                }
                order@.unique_seq_to_set();
                entries.map_values(|e: LocalSystemRegistryEntry<F, S>| e.name_crc).lemma_cardinality_of_set();
                vstd::set_lib::lemma_len_subset(order@.to_set(), name_set(entries));
                assert(order@.len() <= entries.len());
            }
            assert forall|k: int| 0 <= k < entries.len() implies order@.contains(#[trigger] entries[k].name_crc) by {
                lemma_source_link(entries, k);
                assert(popped.contains(entries[k].name_crc));
            }
        }
        let mut i: usize = 0;
        while i < self.entries.len()
            invariant
                self.entries@.len() == entries.len(),
                self.spec_is_initialized() == old(self).spec_is_initialized(),
                i <= entries.len(),
                order@.no_duplicates(),
                order@.len() < u32::MAX,
                forall|k: int| 0 <= k < entries.len() ==> order@.contains(#[trigger] entries[k].name_crc),
                forall|k: int, id: u32| 0 <= k < entries.len() ==> #[trigger] call_requires(entries[k].set_id_fn, (id,)),
                forall|k: int| 0 <= k < i ==> #[trigger] self.entries@[k] == (LocalSystemRegistryEntry {
                    id: position_of(order@, entries[k].name_crc) as u32,
                    ..entries[k]
                }),
                forall|k: int| 0 <= k < i ==> call_ensures(entries[k].set_id_fn, (#[trigger] self.entries@[k].id,), ()),
                forall|k: int| i <= k < entries.len() ==> #[trigger] self.entries@[k] == entries[k],
            decreases entries.len() - i,
        {
            let crc = self.entries[i].name_crc;
            let j = find_position(&order, crc);
            proof {
                lemma_position_of_unique(order@, crc, j as int);
            }
            let id = j as u32;
            let ghost before_update = self.entries@;
            let mut e = self.entries.remove(i);
            e.id = id;
            (e.set_id_fn)(id);
            self.entries.insert(i, e);
            proof {
                assert(self.entries@ =~= before_update.update(i as int, e));
            }
            i = i + 1;
        }
        proof {
            assert forall|a: int, b: int|
                0 <= a < entries.len() && 0 <= b < entries.len() && must_precede(entries, entries[a].name_crc, entries[b].name_crc)
                    implies #[trigger] self.entries@[a].id < #[trigger] self.entries@[b].id by {
                let ca = entries[a].name_crc;
                let cb = entries[b].name_crc;
                let pa = position_of(order@, ca);
                let pb = position_of(order@, cb);
                assert(order@.contains(ca));
                assert(order@.contains(cb));
                assert(popped.contains(cb));
                assert(rank[ca] < rank[cb]);
                assert(order@[pa] == ca && order@[pb] == cb);
                if pa >= pb {
                    if pa > pb {
                        assert(rank[order@[pb]] <= rank[order@[pa]]);
                    }
                }
            }
            assert forall|a: int, b: int|
                0 <= a < entries.len() && 0 <= b < entries.len() implies (#[trigger] self.entries@[a].id == #[trigger] self.entries@[b].id
                    <==> entries[a].name_crc == entries[b].name_crc) by {
                let ca = entries[a].name_crc;
                let cb = entries[b].name_crc;
                assert(order@.contains(ca));
                assert(order@.contains(cb));
                let pa = position_of(order@, ca);
                let pb = position_of(order@, cb);
                assert(order@[pa] == ca && order@[pb] == cb);
            }
            assert forall|a: int, b: int|
                0 <= a < entries.len() && 0 <= b < entries.len() && (entries[b].after@.contains(entries[a].name_crc)
                    || entries[a].before@.contains(entries[b].name_crc)) implies #[trigger] self.entries@[a].id
                    < #[trigger] self.entries@[b].id by {
                law_declared_dependencies_precede(entries, a, b);
            }
        }
        Ok(())
    }

    /// Give every local system its id from the dependency order
    /// (`set_toposort_ids`), then sort the entries by id, so that running
    /// them in entry order respects their dependencies. Fails, changing nothing,
    /// when the dependencies form a cycle.
    pub fn order_by_dependencies(&mut self) -> (r: Result<(), CyclicDependencies>)
        requires
            !old(self).spec_is_initialized(),
            dependencies_well_formed(old(self)@),
            forall|i: int, id: u32| 0 <= i < old(self)@.len() ==> #[trigger] call_requires(old(self)@[i].set_id_fn, (id,)),
        ensures
            !final(self).spec_is_initialized(),
            r is Err ==> final(self)@ == old(self)@ && exists|s: Set<u32>| is_blocked_set(old(self)@, s),
            r is Ok ==> exists|ided: Seq<LocalSystemRegistryEntry<F, S>>| #[trigger] ordered_by_dependencies(old(self)@, ided, final(self)@),
            r is Ok ==> forall|i: int| 0 <= i < final(self)@.len() ==> call_ensures(final(self)@[i].set_id_fn, (#[trigger] final(self)@[i].id,), ()),
            r is Ok && befores_registered(old(self)@) && names_distinct(old(self)@) ==> final(self)@.len() == old(self)@.len()
                && forall|i: int| 0 <= i < final(self)@.len() ==> #[trigger] final(self)@[i].id == i,
    {
        match self.set_toposort_ids() {
            Ok(()) => {},
            Err(e) => return Err(e),
        }
        let ghost ided = self.entries@;
        sort_by_key(&mut self.entries);
        proof {
            assert(ordered_by_dependencies(old(self)@, ided, self.entries@));
            assert(self@ == self.entries@);
            assert(ordered_by_dependencies(old(self)@, ided, self@));
            assert forall|i: int| 0 <= i < self@.len() implies call_ensures(self@[i].set_id_fn, (#[trigger] self@[i].id,), ()) by {
                let x = self@[i];
                vstd::seq_lib::to_multiset_contains(self@, x);
                vstd::seq_lib::to_multiset_contains(ided, x);
                assert(self@.contains(x));
                let j = choose|j: int| 0 <= j < ided.len() && ided[j] == x;
                assert(call_ensures(ided[j].set_id_fn, (ided[j].id,), ()));
            }
            if befores_registered(old(self)@) && names_distinct(old(self)@) {
                assert forall|i: int, j: int| 0 <= i < ided.len() && 0 <= j < ided.len() && i != j implies #[trigger] ided[i].id
                    != #[trigger] ided[j].id by {
                    assert(old(self)@[i].name_crc != old(self)@[j].name_crc);
                }
                lemma_sorted_distinct_ids(ided, self.entries@);
            }
        }
        Ok(())
    }

    /// Initialize the registry: register `entries` after the systems already
    /// there, give every local system its id from the dependency order and
    /// sort the entries by id (`order_by_dependencies`), then apply the
    /// dependency changes of `changes`, in order, and mark the registry
    /// initialized. When the dependencies form a cycle it fails, and the
    /// registry holds the new entries but stays uninitialized.
    pub fn init(&mut self, entries: Vec<LocalSystemRegistryEntry<F, S>>, changes: Vec<DependencyChange>) -> (r: Result<(), CyclicDependencies>)
        requires
            !old(self).spec_is_initialized(),
            dependencies_well_formed(old(self)@ + entries@),
            forall|i: int, id: u32| 0 <= i < old(self)@.len() + entries@.len() ==> #[trigger] call_requires((old(self)@ + entries@)[i].set_id_fn, (id,)),
            forall|k: int| 0 <= k < changes@.len() ==> (#[trigger] changes@[k]).0 < old(self)@.len() + entries@.len(),
        ensures
            r is Err ==> final(self)@ == old(self)@ + entries@ && !final(self).spec_is_initialized()
                && exists|s: Set<u32>| is_blocked_set(old(self)@ + entries@, s),
            r is Ok ==> final(self).spec_is_initialized(),
            r is Ok ==> exists|ided: Seq<LocalSystemRegistryEntry<F, S>>, sorted: Seq<LocalSystemRegistryEntry<F, S>>|
                #[trigger] ordered_by_dependencies(old(self)@ + entries@, ided, sorted) && final(self)@ == with_dependencies(sorted, changes@),
            r is Ok ==> forall|i: int| 0 <= i < final(self)@.len() ==> call_ensures(final(self)@[i].set_id_fn, (#[trigger] final(self)@[i].id,), ()),
            r is Ok && befores_registered(old(self)@ + entries@) && names_distinct(old(self)@ + entries@) ==> final(self)@.len()
                == old(self)@.len() + entries@.len() && forall|i: int| 0 <= i < final(self)@.len() ==> #[trigger] final(self)@[i].id == i,
    {
        let ghost all = old(self)@ + entries@;
        let mut entries = entries;
        self.entries.append(&mut entries);
        proof {
            assert(self@ == all);
        }
        match self.order_by_dependencies() {
            Ok(()) => {},
            Err(e) => return Err(e),
        }
        let ghost sorted = self@;
        proof {
            let ided = choose|ided: Seq<LocalSystemRegistryEntry<F, S>>| #[trigger] ordered_by_dependencies(all, ided, sorted);
            vstd::seq_lib::to_multiset_len(ided);
            vstd::seq_lib::to_multiset_len(sorted);
        }
        let ghost all_changes = changes@;
        let mut changes = changes;
        let n_changes = changes.len();
        let mut k: usize = 0;
        while changes.len() > 0
            invariant
                all_changes.len() == n_changes,
                k + changes@.len() == all_changes.len(),
                changes@ == all_changes.skip(k as int),
                forall|j: int| 0 <= j < all_changes.len() ==> (#[trigger] all_changes[j]).0 < all.len(),
                sorted.len() == all.len(),
                self@.len() == sorted.len(),
                self@ == with_dependencies(sorted, all_changes.take(k as int)),
                !self.spec_is_initialized(),
            decreases changes@.len(),
        {
            let c = changes.remove(0);
            proof {
                assert(c == all_changes[k as int]);
                assert(changes@ =~= all_changes.skip(k + 1));
            }
            let (id, before, after) = c;
            let ghost prev = self@;
            let mut entry = self.entries.remove(id as usize);
            entry.before = before;
            entry.after = after;
            self.entries.insert(id as usize, entry);
            proof {
                let t = all_changes.take(k + 1);
                assert(t.drop_last() =~= all_changes.take(k as int));
                assert(t.last() == all_changes[k as int]);
                assert(self@ =~= prev.update(id as int, entry));
                assert(self@ =~= with_dependencies(sorted, t));
            }
            k = k + 1;
        }
        proof {
            assert(all_changes.take(k as int) =~= all_changes);
            lemma_with_dependencies(sorted, all_changes);
        }
        self.is_initialized = true;
        Ok(())
    }

    /// Mark the registry as initialized: dependencies can no longer be changed.
    pub fn mark_initialized(&mut self)
        ensures
            final(self).spec_is_initialized(),
            final(self)@ == old(self)@,
    {
        self.is_initialized = true;
    }

    /// Adds the link `prec` before `succ` to the sorter.
    fn add_link(&self, ts: &mut TopologicalSort<u32>, prec: u32, succ: u32, Ghost(seen): Ghost<Seq<(u32, u32)>>)
        requires
            counts_consistent(toposort_nodes(*old(ts))),
            successors_closed(toposort_nodes(*old(ts))),
            forall|p: u32, s: u32|
                #[trigger] toposort_nodes(*old(ts)).contains_key(p) && #[trigger] toposort_nodes(*old(ts))[p].1.contains(s) <==> seen.contains((p, s)),
            forall|x: u32|
                #[trigger] toposort_nodes(*old(ts)).contains_key(x) <==> exists|l: (u32, u32)| seen.contains(l) && (l.0 == x || l.1 == x),
            toposort_nodes(*old(ts)).dom().len() <= 2 * seen.len(),
            2 * seen.len() + 2 < u32::MAX,
        ensures
            counts_consistent(toposort_nodes(*final(ts))),
            successors_closed(toposort_nodes(*final(ts))),
            forall|p: u32, s: u32|
                #[trigger] toposort_nodes(*final(ts)).contains_key(p) && #[trigger] toposort_nodes(*final(ts))[p].1.contains(s) <==> seen.push((prec, succ)).contains((p, s)),
            forall|x: u32|
                #[trigger] toposort_nodes(*final(ts)).contains_key(x) <==> exists|l: (u32, u32)| seen.push((prec, succ)).contains(l) && (l.0 == x || l.1 == x),
            toposort_nodes(*final(ts)).dom().len() <= 2 * seen.push((prec, succ)).len(),
    {
        proof {
            let m = toposort_nodes(*ts);
            if m.contains_key(succ) {
                lemma_set_subset_finite(m.dom(), predecessors_in(m, succ));
                lemma_len_subset(predecessors_in(m, succ), m.dom());
            }
            lemma_add_dependency_consistent(m, prec, succ);
        }
        toposort_add_dependency(ts, prec, succ);
        proof {
            let m = toposort_nodes(*old(ts));
            let g = toposort_nodes(*ts);
            let seen2 = seen.push((prec, succ));
            assert(g == add_dependency_spec(m, prec, succ));
            assert forall|p: u32, s: u32| seen2.contains((p, s)) <==> seen.contains((p, s)) || (p == prec && s == succ) by {
                if seen2.contains((p, s)) {
                    let k = choose|k: int| 0 <= k < seen2.len() && seen2[k] == (p, s);
                    if k < seen.len() {
                        assert(seen[k] == (p, s));
                    }
                }
                if seen.contains((p, s)) {
                    let k = choose|k: int| 0 <= k < seen.len() && seen[k] == (p, s);
                    assert(seen2[k] == (p, s));
                }
                assert(seen2[seen.len() as int] == (prec, succ));
            }
            assert forall|p: u32, s: u32| #[trigger] g.contains_key(p) && #[trigger] g[p].1.contains(s) <==> seen2.contains((p, s)) by {
                assert(add_dependency_spec(m, prec, succ).contains_key(p) && add_dependency_spec(m, prec, succ)[p].1.contains(s)
                    <==> (m.contains_key(p) && m[p].1.contains(s)) || (p == prec && s == succ));
            }
            assert forall|x: u32| #[trigger] g.contains_key(x) <==> exists|l: (u32, u32)| seen2.contains(l) && (l.0 == x || l.1 == x) by {
                assert(g.dom() == m.dom().insert(prec).insert(succ));
                if g.contains_key(x) {
                    if m.contains_key(x) {
                        let l = choose|l: (u32, u32)| seen.contains(l) && (l.0 == x || l.1 == x);
                        let k = choose|k: int| 0 <= k < seen.len() && seen[k] == l;
                        assert(seen2[k] == l);
                        assert(seen2.contains(l));
                    } else {
                        let l = (prec, succ);
                        assert(seen2[seen.len() as int] == l);
                        assert(seen2.contains(l));
                        assert(l.0 == x || l.1 == x);
                    }
                }
                if exists|l: (u32, u32)| seen2.contains(l) && (l.0 == x || l.1 == x) {
                    let l = choose|l: (u32, u32)| seen2.contains(l) && (l.0 == x || l.1 == x);
                    let k = choose|k: int| 0 <= k < seen2.len() && seen2[k] == l;
                    if k < seen.len() {
                        assert(seen[k] == l);
                        assert(seen.contains(l));
                        assert(m.contains_key(x));
                    } else {
                        assert(l == (prec, succ));
                    }
                }
            }
            assert(m.dom().insert(prec).len() <= m.dom().len() + 1);
            assert(m.dom().insert(prec).insert(succ).len() <= m.dom().insert(prec).len() + 1);
        }
    }
}

} // verus!
