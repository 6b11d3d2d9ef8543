//! The global systems that a world runs in each stage.
//!
//! Each global system has a function for some of the stages. When a world
//! loads a global system, the system joins the list of every stage it has a
//! function for; when the world unloads it, it leaves them. After a round of
//! loading and unloading the lists are sorted, so that global systems run in
//! the order of their identifiers.
use crate::entity::strictly_sorted;
use crate::entity_spawn_desc::GlobalSystemID;
use crate::local_systems::STAGE_COUNT;
use crate::sorting::{sort_by_key, sorted_by_key};
use vstd::prelude::*;

verus! {

/// The stage lists of the global systems of a world.
pub struct GlobalSystemStages {
    functions: Vec<Vec<bool>>,
    loaded: Vec<bool>,
    stages: Vec<Vec<GlobalSystemID>>,
}

impl GlobalSystemStages {
    /// Number of global systems.
    pub closed spec fn spec_len(&self) -> nat {
        self.functions@.len()
    }

    /// Whether global system `g` has a function for stage `s`.
    pub closed spec fn has_function(&self, g: int, s: int) -> bool {
        self.functions@[g]@[s]
    }

    /// Whether global system `g` is loaded.
    pub closed spec fn is_loaded(&self, g: int) -> bool {
        self.loaded@[g]
    }

    /// The list of stage `s`.
    pub closed spec fn stage(&self, s: int) -> Seq<GlobalSystemID> {
        self.stages@[s]@
    }

    /// Each stage lists, once each, exactly the loaded global systems with a
    /// function for it.
    pub closed spec fn wf(&self) -> bool {
        &&& self.functions@.len() <= u32::MAX
        &&& forall|g: int| 0 <= g < self.functions@.len() ==> (#[trigger] self.functions@[g])@.len() == STAGE_COUNT
        &&& self.loaded@.len() == self.functions@.len()
        &&& self.stages@.len() == STAGE_COUNT
        &&& forall|s: int| 0 <= s < STAGE_COUNT ==> (#[trigger] self.stages@[s])@.no_duplicates()
        &&& forall|s: int, g: GlobalSystemID| 0 <= s < STAGE_COUNT ==> (#[trigger] self.stages@[s]@.contains(g)
            <==> (g < self.functions@.len() && self.loaded@[g as int] && self.functions@[g as int]@[s]))
    }

    /// Every stage list is in increasing order.
    pub closed spec fn sorted(&self) -> bool {
        forall|s: int| 0 <= s < STAGE_COUNT ==> strictly_sorted(#[trigger] self.stages@[s]@)
    }

    /// No global system loaded yet; `functions[g][s]` says whether global
    /// system `g` has a function for stage `s`.
    pub fn new(functions: Vec<Vec<bool>>) -> (r: Self)
        requires
            functions@.len() <= u32::MAX,
            forall|g: int| 0 <= g < functions@.len() ==> (#[trigger] functions@[g])@.len() == STAGE_COUNT,
        ensures
            r.wf(),
            r.sorted(),
            r.spec_len() == functions@.len(),
            forall|g: int, s: int| 0 <= g < functions@.len() && 0 <= s < STAGE_COUNT ==> #[trigger] r.has_function(g, s) == functions@[g]@[s],
            forall|g: int| 0 <= g < functions@.len() ==> !#[trigger] r.is_loaded(g),
            forall|s: int| 0 <= s < STAGE_COUNT ==> #[trigger] r.stage(s) == Seq::<GlobalSystemID>::empty(),
    {
        let mut loaded: Vec<bool> = Vec::new();
        let mut g: usize = 0;
        while g < functions.len()
            invariant
                g <= functions@.len(),
                loaded@.len() == g,
                forall|k: int| 0 <= k < g ==> !loaded@[k],
            decreases functions@.len() - g,
        {
            loaded.push(false);
            g = g + 1;
        }
        let mut stages: Vec<Vec<GlobalSystemID>> = Vec::new();
        let mut s: usize = 0;
        while s < STAGE_COUNT
            invariant
                s <= STAGE_COUNT,
                stages@.len() == s,
                forall|k: int| 0 <= k < s ==> (#[trigger] stages@[k])@ == Seq::<GlobalSystemID>::empty(),
            decreases STAGE_COUNT - s,
        {
            stages.push(Vec::new());
            s = s + 1;
        }
        GlobalSystemStages { functions, loaded, stages }
    }

    /// Whether global system `g` is loaded.
    pub fn global_system_is_loaded(&self, g: GlobalSystemID) -> (r: bool)
        requires
            self.wf(),
            g < self.spec_len(),
        ensures
            r == self.is_loaded(g as int),
    {
        self.loaded[g as usize]
    }

    /// The global systems to run in stage `s`, in order.
    pub fn get_stage(&self, s: usize) -> (r: &Vec<GlobalSystemID>)
        requires
            self.wf(),
            s < STAGE_COUNT,
        ensures
            r@ == self.stage(s as int),
    {
        &self.stages[s]
    }

    /// Load global system `g`: it joins, at the end, the list of every stage
    /// it has a function for.
    pub fn load_global_system(&mut self, g: GlobalSystemID)
        requires
            old(self).wf(),
            g < old(self).spec_len(),
            !old(self).is_loaded(g as int),
        ensures
            final(self).wf(),
            final(self).spec_len() == old(self).spec_len(),
            forall|h: int, s: int| #[trigger] final(self).has_function(h, s) == old(self).has_function(h, s),
            forall|h: int| 0 <= h < old(self).spec_len() ==> #[trigger] final(self).is_loaded(h) == (h == g || old(self).is_loaded(h)),
            forall|s: int| 0 <= s < STAGE_COUNT ==> #[trigger] final(self).stage(s) == if old(self).has_function(g as int, s) {
                old(self).stage(s).push(g)
            } else {
                old(self).stage(s)
            },
    {
        let ghost old_self = *self;
        self.loaded.set(g as usize, true);
        let mut s: usize = 0;
        while s < STAGE_COUNT
            invariant
                s <= STAGE_COUNT,
                g < old_self.functions@.len(),
                !old_self.loaded@[g as int],
                self.functions == old_self.functions,
                self.loaded@ == old_self.loaded@.update(g as int, true),
                self.stages@.len() == STAGE_COUNT,
                old_self.stages@.len() == STAGE_COUNT,
                forall|k: int| 0 <= k < old_self.functions@.len() ==> (#[trigger] old_self.functions@[k])@.len() == STAGE_COUNT,
                forall|t: int| 0 <= t < s ==> #[trigger] self.stages@[t]@ == if old_self.functions@[g as int]@[t] {
                    old_self.stages@[t]@.push(g)
                } else {
                    old_self.stages@[t]@
                },
                forall|t: int| s <= t < STAGE_COUNT ==> #[trigger] self.stages@[t]@ == old_self.stages@[t]@,
            decreases STAGE_COUNT - s,
        {
            if self.functions[g as usize][s] {
                let mut row: Vec<GlobalSystemID> = Vec::new();
                std::mem::swap(&mut row, &mut self.stages[s]);
                proof {
                    assert(row@ == old_self.stages@[s as int]@);
                }
                row.push(g);
                self.stages.set(s, row);
            }
            s = s + 1;
        }
        proof {
            assert forall|t: int| 0 <= t < STAGE_COUNT implies (#[trigger] self.stages@[t])@.no_duplicates() by {
                assert(old_self.stages@[t]@.no_duplicates());
                if old_self.functions@[g as int]@[t] {
                    assert(!old_self.stages@[t]@.contains(g));
                    assert forall|i: int, j: int| 0 <= i < j < self.stages@[t]@.len() implies self.stages@[t]@[i] != self.stages@[t]@[j] by {
                        if j == self.stages@[t]@.len() - 1 {
                            assert(old_self.stages@[t]@[i] == self.stages@[t]@[i]);
                        }
                    }
                }
            }
            assert forall|t: int, h: GlobalSystemID| 0 <= t < STAGE_COUNT implies (#[trigger] self.stages@[t]@.contains(h)
                <==> (h < self.functions@.len() && self.loaded@[h as int] && self.functions@[h as int]@[t])) by {
                assert(old_self.stages@[t]@.contains(h) <==> (h < old_self.functions@.len() && old_self.loaded@[h as int] && old_self.functions@[h as int]@[t]));
                if old_self.functions@[g as int]@[t] {
                    assert(self.stages@[t]@.contains(h) <==> (old_self.stages@[t]@.contains(h) || h == g)) by {
                        if h == g {
                            assert(self.stages@[t]@[self.stages@[t]@.len() - 1] == g);
                        }
                        if self.stages@[t]@.contains(h) && h != g {
                            let i = choose|i: int| 0 <= i < self.stages@[t]@.len() && self.stages@[t]@[i] == h;
                            assert(old_self.stages@[t]@[i] == h);
                        }
                        if old_self.stages@[t]@.contains(h) {
                            let i = choose|i: int| 0 <= i < old_self.stages@[t]@.len() && old_self.stages@[t]@[i] == h;
                            assert(self.stages@[t]@[i] == h);
                        }
                    }
                }
            }
        }
    }

    /// Unload global system `g`: it leaves the list of every stage it has a
    /// function for, its place taken by the last system of the list.
    pub fn unload_global_system(&mut self, g: GlobalSystemID)
        requires
            old(self).wf(),
            g < old(self).spec_len(),
            old(self).is_loaded(g as int),
        ensures
            final(self).wf(),
            final(self).spec_len() == old(self).spec_len(),
            forall|h: int, s: int| #[trigger] final(self).has_function(h, s) == old(self).has_function(h, s),
            forall|h: int| 0 <= h < old(self).spec_len() ==> #[trigger] final(self).is_loaded(h) == (h != g && old(self).is_loaded(h)),
            forall|s: int| 0 <= s < STAGE_COUNT ==> #[trigger] final(self).stage(s) == if old(self).has_function(g as int, s) {
                old(self).stage(s).update(old(self).stage(s).index_of(g), old(self).stage(s).last()).drop_last()
            } else {
                old(self).stage(s)
            },
    {
        let ghost old_self = *self;
        self.loaded.set(g as usize, false);
        let mut s: usize = 0;
        while s < STAGE_COUNT
            invariant
                s <= STAGE_COUNT,
                g < old_self.functions@.len(),
                old_self.wf(),
                old_self.loaded@[g as int],
                self.functions == old_self.functions,
                self.loaded@ == old_self.loaded@.update(g as int, false),
                self.stages@.len() == STAGE_COUNT,
                forall|t: int| 0 <= t < s ==> #[trigger] self.stages@[t]@ == if old_self.functions@[g as int]@[t] {
                    old_self.stages@[t]@.update(old_self.stages@[t]@.index_of(g), old_self.stages@[t]@.last()).drop_last()
                } else {
                    old_self.stages@[t]@
                },
                forall|t: int| s <= t < STAGE_COUNT ==> #[trigger] self.stages@[t]@ == old_self.stages@[t]@,
            decreases STAGE_COUNT - s,
        {
            if self.functions[g as usize][s] {
                let mut row: Vec<GlobalSystemID> = Vec::new();
                std::mem::swap(&mut row, &mut self.stages[s]);
                proof {
                    assert(row@ == old_self.stages@[s as int]@);
                    assert(old_self.stages@[s as int]@.contains(g));
                }
                let i = position_of(&row, g);
                row.swap_remove(i);
                self.stages.set(s, row);
            }
            s = s + 1;
        }
        proof {
            assert forall|t: int| 0 <= t < STAGE_COUNT && old_self.functions@[g as int]@[t] implies {
                let o = old_self.stages@[t]@;
                let n = self.stages@[t]@;
                &&& n.no_duplicates()
                &&& forall|h: GlobalSystemID| n.contains(h) <==> (o.contains(h) && h != g)
            } by {
                let o = old_self.stages@[t]@;
                let n = self.stages@[t]@;
                assert(o.contains(g));
                let i = o.index_of(g);
                assert(0 <= i < o.len() && o[i] == g);
                assert(o.no_duplicates());
                assert forall|h: GlobalSystemID| n.contains(h) <==> (o.contains(h) && h != g) by {
                    if n.contains(h) {
                        let j = choose|j: int| 0 <= j < n.len() && n[j] == h;
                        if j == i {
                            assert(h == o.last());
                            assert(o[o.len() - 1] == h);
                            if h == g {
                                assert(o.len() - 1 == i);
                            }
                        } else {
                            assert(o[j] == h);
                            assert(h != g);
                        }
                    }
                    if o.contains(h) && h != g {
                        let j = choose|j: int| 0 <= j < o.len() && o[j] == h;
                        if j == o.len() - 1 {
                            assert(n[i] == h);
                        } else {
                            assert(j != i);
                            assert(n[j] == h);
                        }
                    }
                }
                assert forall|a: int, b: int| 0 <= a < b < n.len() implies n[a] != n[b] by {
                    if a == i {
                        assert(n[a] == o[o.len() - 1]);
                        assert(n[b] == o[b]);
                    } else if b == i {
                        assert(n[b] == o[o.len() - 1]);
                        assert(n[a] == o[a]);
                    } else {
                        assert(n[a] == o[a]);
                        assert(n[b] == o[b]);
                    }
                }
            }
            assert forall|t: int, h: GlobalSystemID| 0 <= t < STAGE_COUNT implies (#[trigger] self.stages@[t]@.contains(h)
                <==> (h < self.functions@.len() && self.loaded@[h as int] && self.functions@[h as int]@[t])) by {
                assert(old_self.stages@[t]@.contains(h) <==> (h < old_self.functions@.len() && old_self.loaded@[h as int] && old_self.functions@[h as int]@[t]));
                if !old_self.functions@[g as int]@[t] && h == g {
                    assert(!old_self.stages@[t]@.contains(h));
                }
            }
            assert forall|t: int| 0 <= t < STAGE_COUNT implies (#[trigger] self.stages@[t])@.no_duplicates() by {
                assert(old_self.stages@[t]@.no_duplicates());
            }
        }
    }

    /// Sort every stage list in increasing order.
    pub fn sort_stages(&mut self)
        requires
            old(self).wf(),
        ensures
            final(self).wf(),
            final(self).sorted(),
            final(self).spec_len() == old(self).spec_len(),
            forall|h: int, s: int| #[trigger] final(self).has_function(h, s) == old(self).has_function(h, s),
            forall|h: int| #[trigger] final(self).is_loaded(h) == old(self).is_loaded(h),
            forall|s: int, g: GlobalSystemID| 0 <= s < STAGE_COUNT ==> (#[trigger] final(self).stage(s).contains(g) <==> old(self).stage(s).contains(g)),
    {
        let ghost old_self = *self;
        let mut s: usize = 0;
        while s < STAGE_COUNT
            invariant
                s <= STAGE_COUNT,
                old_self.wf(),
                self.functions == old_self.functions,
                self.loaded == old_self.loaded,
                self.stages@.len() == STAGE_COUNT,
                forall|t: int| 0 <= t < s ==> strictly_sorted(#[trigger] self.stages@[t]@),
                forall|t: int| 0 <= t < STAGE_COUNT ==> (#[trigger] self.stages@[t])@.no_duplicates(),
                forall|t: int, h: GlobalSystemID| 0 <= t < STAGE_COUNT ==> (#[trigger] self.stages@[t]@.contains(h) <==> old_self.stages@[t]@.contains(h)),
                forall|t: int| s <= t < STAGE_COUNT ==> #[trigger] self.stages@[t]@ == old_self.stages@[t]@,
            decreases STAGE_COUNT - s,
        {
            let mut row: Vec<GlobalSystemID> = Vec::new();
            std::mem::swap(&mut row, &mut self.stages[s]);
            let ghost before = row@;
            proof {
                assert(before == old_self.stages@[s as int]@);
                assert(before.no_duplicates());
            }
            sort_by_key(&mut row);
            proof {
                lemma_sorted_permutation(before, row@);
            }
            self.stages.set(s, row);
            s = s + 1;
        }
    }

    /// Apply a round of unloading and loading: unload the systems of
    /// `unloaded`, then load those of `loaded`, each in order; then, if
    /// anything changed, sort every stage list.
    pub fn process(&mut self, unloaded: &Vec<GlobalSystemID>, loaded: &Vec<GlobalSystemID>)
        requires
            old(self).wf(),
            old(self).sorted(),
            unloaded@.no_duplicates(),
            loaded@.no_duplicates(),
            forall|g: GlobalSystemID| #[trigger] unloaded@.contains(g) ==> g < old(self).spec_len() && old(self).is_loaded(g as int),
            forall|g: GlobalSystemID| #[trigger] loaded@.contains(g) ==> g < old(self).spec_len()
                && (!old(self).is_loaded(g as int) || unloaded@.contains(g)),
        ensures
            final(self).wf(),
            final(self).sorted(),
            final(self).spec_len() == old(self).spec_len(),
            forall|h: int, s: int| #[trigger] final(self).has_function(h, s) == old(self).has_function(h, s),
            forall|h: GlobalSystemID| h < old(self).spec_len() ==> #[trigger] final(self).is_loaded(h as int) == (loaded@.contains(h)
                || (old(self).is_loaded(h as int) && !unloaded@.contains(h))),
    {
        let ghost old_self = *self;
        let mut k: usize = 0;
        while k < unloaded.len()
            invariant
                k <= unloaded@.len(),
                self.wf(),
                unloaded@.no_duplicates(),
                self.spec_len() == old_self.spec_len(),
                forall|h: int, s: int| #[trigger] self.has_function(h, s) == old_self.has_function(h, s),
                forall|g: GlobalSystemID| #[trigger] unloaded@.contains(g) ==> g < old_self.spec_len() && old_self.is_loaded(g as int),
                forall|h: GlobalSystemID| h < old_self.spec_len() ==> #[trigger] self.is_loaded(h as int) == (old_self.is_loaded(h as int)
                    && !unloaded@.take(k as int).contains(h)),
                k == 0 ==> *self == old_self,
            decreases unloaded@.len() - k,
        {
            let g = unloaded[k];
            proof {
                assert(unloaded@.contains(g));
                assert(!unloaded@.take(k as int).contains(g)) by {
                    if unloaded@.take(k as int).contains(g) {
                        let j = choose|j: int| 0 <= j < k && unloaded@.take(k as int)[j] == g;
                        assert(unloaded@[j] == unloaded@[k as int]);
                    }
                }
                assert(self.is_loaded(g as int));
            }
            self.unload_global_system(g);
            proof {
                assert forall|h: GlobalSystemID| h < old_self.spec_len() implies #[trigger] self.is_loaded(h as int) == (old_self.is_loaded(h as int)
                    && !unloaded@.take(k + 1).contains(h)) by {
                    assert(unloaded@.take(k + 1).contains(h) == (unloaded@.take(k as int).contains(h) || h == g)) by {
                        let next = unloaded@.take(k + 1);
                        if next.contains(h) && h != g {
                            let j = choose|j: int| 0 <= j < next.len() && next[j] == h;
                            assert(unloaded@.take(k as int)[j] == h);
                        }
                        if unloaded@.take(k as int).contains(h) {
                            let j = choose|j: int| 0 <= j < k && unloaded@.take(k as int)[j] == h;
                            assert(unloaded@.take(k + 1)[j] == h);
                        }
                        if h == g {
                            assert(unloaded@.take(k + 1)[k as int] == h);
                        }
                    }
                }
            }
            k = k + 1;
        }
        proof {
            assert(unloaded@.take(k as int) =~= unloaded@);
        }
        let ghost mid = *self;
        let mut k: usize = 0;
        while k < loaded.len()
            invariant
                k <= loaded@.len(),
                self.wf(),
                loaded@.no_duplicates(),
                self.spec_len() == old_self.spec_len(),
                forall|h: int, s: int| #[trigger] self.has_function(h, s) == old_self.has_function(h, s),
                forall|g: GlobalSystemID| #[trigger] loaded@.contains(g) ==> g < old_self.spec_len()
                    && (!old_self.is_loaded(g as int) || unloaded@.contains(g)),
                forall|h: GlobalSystemID| h < old_self.spec_len() ==> #[trigger] mid.is_loaded(h as int) == (old_self.is_loaded(h as int)
                    && !unloaded@.contains(h)),
                forall|h: GlobalSystemID| h < old_self.spec_len() ==> #[trigger] self.is_loaded(h as int) == (mid.is_loaded(h as int)
                    || loaded@.take(k as int).contains(h)),
                k == 0 ==> *self == mid,
            decreases loaded@.len() - k,
        {
            let g = loaded[k];
            proof {
                assert(loaded@.contains(g));
                assert(!loaded@.take(k as int).contains(g)) by {
                    if loaded@.take(k as int).contains(g) {
                        let j = choose|j: int| 0 <= j < k && loaded@.take(k as int)[j] == g;
                        assert(loaded@[j] == loaded@[k as int]);
                    }
                }
                assert(!self.is_loaded(g as int));
            }
            self.load_global_system(g);
            proof {
                assert forall|h: GlobalSystemID| h < old_self.spec_len() implies #[trigger] self.is_loaded(h as int) == (mid.is_loaded(h as int)
                    || loaded@.take(k + 1).contains(h)) by {
                    assert(loaded@.take(k + 1).contains(h) == (loaded@.take(k as int).contains(h) || h == g)) by {
                        let next = loaded@.take(k + 1);
                        if next.contains(h) && h != g {
                            let j = choose|j: int| 0 <= j < next.len() && next[j] == h;
                            assert(loaded@.take(k as int)[j] == h);
                        }
                        if loaded@.take(k as int).contains(h) {
                            let j = choose|j: int| 0 <= j < k && loaded@.take(k as int)[j] == h;
                            assert(loaded@.take(k + 1)[j] == h);
                        }
                        if h == g {
                            assert(loaded@.take(k + 1)[k as int] == h);
                        }
                    }
                }
            }
            k = k + 1;
        }
        proof {
            assert(loaded@.take(k as int) =~= loaded@);
        }
        if unloaded.len() > 0 || loaded.len() > 0 {
            self.sort_stages();
        }
    }
}

/// Between rounds of loading and unloading, each stage lists the loaded
/// global systems that have a function for it, each once, in increasing order
/// of identifier.
pub proof fn law_stages_list_loaded_systems_in_order(t: GlobalSystemStages, s: int)
    requires
        t.wf(),
        t.sorted(),
        0 <= s < STAGE_COUNT,
    ensures
        strictly_sorted(t.stage(s)),
        forall|g: GlobalSystemID| #[trigger] t.stage(s).contains(g) <==> (g < t.spec_len() && t.is_loaded(g as int)
            && t.has_function(g as int, s)),
{
    assert forall|g: GlobalSystemID| #[trigger] t.stage(s).contains(g) <==> (g < t.spec_len() && t.is_loaded(g as int)
        && t.has_function(g as int, s)) by {
        assert(t.stages@[s]@.contains(g) <==> (g < t.functions@.len() && t.loaded@[g as int] && t.functions@[g as int]@[s]));
    }
}

/// The position of `g` in `v`, which holds it once.
fn position_of(v: &Vec<GlobalSystemID>, g: GlobalSystemID) -> (i: usize)
    requires
        v@.contains(g),
        v@.no_duplicates(),
    ensures
        i < v@.len(),
        v@[i as int] == g,
        i == v@.index_of(g),
{
    let mut i: usize = 0;
    while i < v.len()
        invariant
            i <= v@.len(),
            v@.contains(g),
            v@.no_duplicates(),
            forall|j: int| 0 <= j < i ==> v@[j] != g,
        decreases v@.len() - i,
    {
        if v[i] == g {
            proof {
                let c = v@.index_of(g);
                assert(0 <= c < v@.len() && v@[c] == g);
                if c != i {
                    assert(v@[c] != v@[i as int]);
                }
            }
            return i;
        }
        i = i + 1;
    }
    proof {
        let j = choose|j: int| 0 <= j < v@.len() && v@[j] == g;
        assert(v@[j] == g);
    }
    0
}

/// A sorted permutation of a list without duplicates is strictly sorted and
/// lists the same values.
proof fn lemma_sorted_permutation(a: Seq<GlobalSystemID>, b: Seq<GlobalSystemID>)
    requires
        a.no_duplicates(),
        sorted_by_key(b),
        b.to_multiset() == a.to_multiset(),
    ensures
        strictly_sorted(b),
        b.no_duplicates(),
        forall|g: GlobalSystemID| b.contains(g) <==> a.contains(g),
{
    broadcast use vstd::seq_lib::group_to_multiset_ensures;

    a.to_multiset_ensures();
    b.to_multiset_ensures();
    assert forall|g: GlobalSystemID| b.contains(g) <==> a.contains(g) by {
        assert(b.to_multiset().count(g) == a.to_multiset().count(g));
        assert(b.contains(g) <==> b.to_multiset().count(g) > 0);
        assert(a.contains(g) <==> a.to_multiset().count(g) > 0);
    }
    assert forall|i: int, j: int| 0 <= i < j < b.len() implies b[i] < b[j] by {
        assert(b[i] <= b[j]);
        if b[i] == b[j] {
            let x = b[i];
            assert(a.to_multiset().count(x) <= 1) by {
                a.lemma_multiset_has_no_duplicates();
            }
            lemma_count_two(b, i, j);
        }
    }
}

/// A value at two positions of a list is counted at least twice.
proof fn lemma_count_two(s: Seq<GlobalSystemID>, i: int, j: int)
    requires
        0 <= i < j < s.len(),
        s[i] == s[j],
    ensures
        s.to_multiset().count(s[i]) >= 2,
    decreases s.len(),
{
    broadcast use vstd::seq_lib::group_to_multiset_ensures;

    let x = s[i];
    if j == s.len() - 1 {
        assert(s.drop_last().push(s.last()) =~= s);
        assert(s.drop_last().contains(x)) by {
            assert(s.drop_last()[i] == x);
        }
        assert(s.drop_last().to_multiset().count(x) >= 1);
    } else {
        lemma_count_two(s.drop_last(), i, j);
        assert(s.drop_last().push(s.last()) =~= s);
    }
}

} // verus!
