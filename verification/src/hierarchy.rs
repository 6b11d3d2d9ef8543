//! The spatial hierarchy of entities: each spatial entity is a node with an
//! optional parent and its children, and keeps two cached counts of the
//! sub-hierarchy below it (itself included): how many nodes it has, and, for
//! each stage, how many of them run in that stage. Reparenting keeps both
//! counts exact along the whole ancestor chain.
use crate::local_systems::{StageID, STAGE_COUNT};
use crate::stage_tables::{stage_flag, stage_flags, StageEnabledMap};
use vstd::prelude::*;
use vstd::set_lib::*;

verus! {

/// Index of a node of the hierarchy.
pub type NodeIndex = usize;

/// Nodes of the spatial hierarchy, stored by index.
pub struct SpatialHierarchy {
    parent: Vec<Option<NodeIndex>>,
    children: Vec<Vec<NodeIndex>>,
    n_nodes: Vec<usize>,
    /// `STAGE_COUNT` counts per node, node after node.
    stage_count: Vec<usize>,
    /// `STAGE_COUNT` flags per node: the stages in which the node itself runs.
    runs: Vec<bool>,
    /// For each node, its ancestors from its parent up to its root.
    anc: Ghost<Seq<Seq<NodeIndex>>>,
}

impl SpatialHierarchy {
    /// Number of nodes.
    pub closed spec fn len(&self) -> nat {
        self.parent@.len()
    }

    pub closed spec fn parent_of(&self, x: int) -> Option<NodeIndex> {
        self.parent@[x]
    }

    pub closed spec fn children_of(&self, x: int) -> Seq<NodeIndex> {
        self.children@[x]@
    }

    /// The cached number of nodes in the sub-hierarchy of `x`.
    pub closed spec fn n_nodes_of(&self, x: int) -> usize {
        self.n_nodes@[x]
    }

    /// The cached number of nodes of the sub-hierarchy of `x` that run in stage `s`.
    pub closed spec fn stage_count_of(&self, x: int, s: int) -> usize {
        self.stage_count@[x * STAGE_COUNT + s]
    }

    /// Whether node `x` itself runs in stage `s`.
    pub closed spec fn runs_in(&self, x: int, s: int) -> bool {
        self.runs@[x * STAGE_COUNT + s]
    }

    /// The ancestors of `x`, from its parent up to its root.
    pub closed spec fn ancestors(&self, x: int) -> Seq<NodeIndex> {
        self.anc@[x]
    }

    /// `y` is `x` or one of its descendants.
    pub open spec fn in_subtree(&self, y: int, x: int) -> bool {
        y == x || self.ancestors(y).contains(x as NodeIndex)
    }

    /// The nodes of the sub-hierarchy of `x`, `x` included.
    pub open spec fn subtree(&self, x: int) -> Set<int> {
        Set::new(|y: int| 0 <= y < self.len() && self.in_subtree(y, x))
    }

    /// The nodes of the sub-hierarchy of `x` that run in stage `s`.
    pub open spec fn subtree_in_stage(&self, x: int, s: int) -> Set<int> {
        self.subtree(x).filter(|y: int| self.runs_in(y, s))
    }

    /// Everything that holds of node `x` in a well formed hierarchy: its
    /// ancestors follow its parent link, its children are exactly the nodes
    /// whose parent it is, and its counts are those of its sub-hierarchy.
    pub open spec fn node_ok(&self, x: int) -> bool {
        &&& self.ancestors(x) == match self.parent_of(x) {
            None => Seq::<NodeIndex>::empty(),
            Some(p) => seq![p] + self.ancestors(p as int),
        }
        &&& forall|i: int| 0 <= i < self.ancestors(x).len() ==> #[trigger] self.ancestors(x)[i] < self.len()
        &&& self.children_of(x).no_duplicates()
        &&& forall|j: int| 0 <= j < self.children_of(x).len() ==> {
            &&& #[trigger] self.children_of(x)[j] < self.len()
            &&& self.parent_of(self.children_of(x)[j] as int) == Some(x as NodeIndex)
        }
        &&& forall|y: int| 0 <= y < self.len() && self.parent_of(y) == Some(x as NodeIndex) ==> #[trigger] self.children_of(x).contains(y as NodeIndex)
        &&& self.n_nodes_of(x) == self.subtree(x).len()
        &&& forall|s: int| 0 <= s < STAGE_COUNT ==> #[trigger] self.stage_count_of(x, s) == self.subtree_in_stage(x, s).len()
    }

    /// Well formed: the ancestor chains are finite (no cycle), links agree
    /// both ways, and all counts are exact.
    pub open spec fn wf(&self) -> bool {
        &&& self.shape_ok()
        &&& self.len() <= usize::MAX
        &&& forall|x: int| 0 <= x < self.len() ==> #[trigger] self.node_ok(x)
    }

    /// The storage has the size the number of nodes asks for.
    pub closed spec fn shape_ok(&self) -> bool {
        &&& self.len() <= usize::MAX
        &&& self.children@.len() == self.len()
        &&& self.n_nodes@.len() == self.len()
        &&& self.stage_count@.len() == self.len() * STAGE_COUNT
        &&& self.runs@.len() == self.len() * STAGE_COUNT
        &&& self.anc@.len() == self.len()
    }
}

impl SpatialHierarchy {
    /// The ancestors of an ancestor of `x` are the rest of the chain of `x`.
    pub proof fn lemma_ancestors_suffix(&self, x: int, i: int)
        requires
            self.wf(),
            0 <= x < self.len(),
            0 <= i < self.ancestors(x).len(),
        ensures
            0 <= self.ancestors(x)[i] < self.len(),
            self.ancestors(self.ancestors(x)[i] as int) == self.ancestors(x).skip(i + 1),
        decreases i,
    {
        assert(self.node_ok(x));
        let p = self.parent_of(x)->0;
        assert(self.ancestors(x) == seq![p] + self.ancestors(p as int));
        assert(self.ancestors(x)[0] == p);
        assert(p < self.len());
        if i == 0 {
            assert(self.ancestors(x).skip(1) =~= self.ancestors(p as int));
        } else {
            self.lemma_ancestors_suffix(p as int, i - 1);
            assert(self.ancestors(x)[i] == self.ancestors(p as int)[i - 1]);
            assert(self.ancestors(p as int).skip(i) =~= self.ancestors(x).skip(i + 1));
        }
    }

    /// No node is its own ancestor, and an ancestor chain never repeats.
    pub proof fn lemma_ancestors_acyclic(&self, x: int)
        requires
            self.wf(),
            0 <= x < self.len(),
        ensures
            !self.ancestors(x).contains(x as NodeIndex),
            self.ancestors(x).no_duplicates(),
    {
        let a = self.ancestors(x);
        if a.contains(x as NodeIndex) {
            let i = choose|i: int| 0 <= i < a.len() && a[i] == x as NodeIndex;
            self.lemma_ancestors_suffix(x, i);
            assert(a.skip(i + 1).len() < a.len());
        }
        assert forall|i: int, j: int| 0 <= i < a.len() && 0 <= j < a.len() && i != j implies a[i] != a[j] by {
            self.lemma_ancestors_suffix(x, i);
            self.lemma_ancestors_suffix(x, j);
            if a[i] == a[j] {
                assert(a.skip(i + 1).len() != a.skip(j + 1).len());
            }
        }
    }

    /// An ancestor of an ancestor of `y` is an ancestor of `y`.
    pub proof fn lemma_ancestors_transitive(&self, y: int, a: NodeIndex, c: NodeIndex)
        requires
            self.wf(),
            0 <= y < self.len(),
            self.ancestors(y).contains(a),
            self.ancestors(a as int).contains(c),
        ensures
            self.ancestors(y).contains(c),
    {
        let i = choose|i: int| 0 <= i < self.ancestors(y).len() && self.ancestors(y)[i] == a;
        self.lemma_ancestors_suffix(y, i);
        let k = choose|k: int| 0 <= k < self.ancestors(a as int).len() && self.ancestors(a as int)[k] == c;
        assert(self.ancestors(y)[i + 1 + k] == c);
    }

    /// Sub-hierarchies are finite sets of nodes.
    pub proof fn lemma_subtree_finite(&self, x: int)
        ensures
            self.subtree(x).finite(),
            self.subtree(x).len() <= self.len(),
    {
        let all = set_int_range(0, self.len() as int);
        lemma_int_range(0, self.len() as int);
        assert(self.subtree(x).subset_of(all));
        vstd::set_lib::lemma_len_subset(self.subtree(x), all);
    }
}

impl SpatialHierarchy {
    /// An empty hierarchy.
    pub fn new() -> (h: Self)
        ensures
            h.wf(),
            h.len() == 0,
    {
        SpatialHierarchy {
            parent: Vec::new(),
            children: Vec::new(),
            n_nodes: Vec::new(),
            stage_count: Vec::new(),
            runs: Vec::new(),
            anc: Ghost(Seq::empty()),
        }
    }

    /// Number of nodes.
    pub fn num_nodes(&self) -> (r: usize)
        ensures
            r == self.len(),
    {
        self.parent.len()
    }

    /// Add the node of a new spatial entity that runs in the stages flagged
    /// by `flags`. It is the root of its own hierarchy of one node, which runs
    /// exactly in its own stages.
    pub fn add_node(&mut self, flags: &StageEnabledMap) -> (r: NodeIndex)
        requires
            old(self).wf(),
            stage_flags(*flags).len() == STAGE_COUNT,
            old(self).len() < usize::MAX,
        ensures
            final(self).wf(),
            r == old(self).len(),
            final(self).len() == old(self).len() + 1,
            final(self).parent_of(r as int) is None,
            final(self).children_of(r as int) == Seq::<NodeIndex>::empty(),
            final(self).n_nodes_of(r as int) == 1,
            forall|s: int| 0 <= s < STAGE_COUNT ==> #[trigger] final(self).runs_in(r as int, s) == stage_flags(*flags)[s],
            forall|s: int| 0 <= s < STAGE_COUNT ==> #[trigger] final(self).stage_count_of(r as int, s) == if stage_flags(*flags)[s] {
                1usize
            } else {
                0usize
            },
            forall|x: int| 0 <= x < old(self).len() ==> {
                &&& #[trigger] final(self).parent_of(x) == old(self).parent_of(x)
                &&& final(self).children_of(x) == old(self).children_of(x)
                &&& final(self).ancestors(x) == old(self).ancestors(x)
                &&& final(self).n_nodes_of(x) == old(self).n_nodes_of(x)
                &&& forall|s: int| 0 <= s < STAGE_COUNT ==> #[trigger] final(self).stage_count_of(x, s) == old(self).stage_count_of(x, s)
            },
    {
        let ghost old_self = *self;
        let n = self.parent.len();
        let mut t: usize = 0;
        while t < STAGE_COUNT
            invariant
                t <= STAGE_COUNT,
                stage_flags(*flags).len() == STAGE_COUNT,
                n == old_self.len(),
                self.parent == old_self.parent,
                self.children == old_self.children,
                self.n_nodes == old_self.n_nodes,
                self.anc == old_self.anc,
                self.runs@.len() == n * STAGE_COUNT + t,
                self.stage_count@.len() == n * STAGE_COUNT + t,
                forall|i: int| 0 <= i < n * STAGE_COUNT ==> #[trigger] self.runs@[i] == old_self.runs@[i],
                forall|i: int| 0 <= i < n * STAGE_COUNT ==> #[trigger] self.stage_count@[i] == old_self.stage_count@[i],
                forall|s: int| 0 <= s < t ==> #[trigger] self.runs@[n * STAGE_COUNT + s] == stage_flags(*flags)[s],
                forall|s: int| 0 <= s < t ==> #[trigger] self.stage_count@[n * STAGE_COUNT + s] == if stage_flags(*flags)[s] {
                    1usize
                } else {
                    0usize
                },
                old_self.wf(),
            decreases STAGE_COUNT - t,
        {
            let f = stage_flag(flags, t);
            self.runs.push(f);
            self.stage_count.push(if f { 1 } else { 0 });
            t = t + 1;
        }
        self.parent.push(None);
        self.children.push(Vec::new());
        self.n_nodes.push(1);
        self.anc = Ghost(self.anc@.push(Seq::empty()));
        proof {
            let len0 = old_self.len();
            assert forall|x: int| 0 <= x < len0 implies self.subtree(x) == old_self.subtree(x) by {
                assert(old_self.node_ok(x));
                assert forall|y: int| self.subtree(x).contains(y) <==> old_self.subtree(x).contains(y) by {
                    if y == n {
                        assert(self.ancestors(y) == Seq::<NodeIndex>::empty());
                    }
                }
                assert(self.subtree(x) =~= old_self.subtree(x));
            }
            assert forall|x: int, s: int| 0 <= x < len0 && 0 <= s < STAGE_COUNT implies self.subtree_in_stage(x, s) == old_self.subtree_in_stage(x, s) by {
                assert(self.subtree(x) == old_self.subtree(x));
                assert forall|y: int| self.subtree_in_stage(x, s).contains(y) <==> old_self.subtree_in_stage(x, s).contains(y) by {
                    if self.subtree(x).contains(y) {
                        assert(0 <= y < len0);
                        assert(y * STAGE_COUNT + s < len0 * STAGE_COUNT) by (nonlinear_arith)
                            requires
                                0 <= y < len0,
                                0 <= s < STAGE_COUNT,
                        ;
                        assert(self.runs_in(y, s) == old_self.runs_in(y, s));
                    }
                }
                assert(self.subtree_in_stage(x, s) =~= old_self.subtree_in_stage(x, s));
            }
            assert(self.subtree(n as int) =~= set![n as int]) by {
                assert forall|y: int| 0 <= y < len0 implies !(#[trigger] self.ancestors(y)).contains(n) by {
                    assert(old_self.node_ok(y));
                    if self.ancestors(y).contains(n) {
                        let i = choose|i: int| 0 <= i < self.ancestors(y).len() && self.ancestors(y)[i] == n;
                        assert(self.ancestors(y)[i] < len0);
                    }
                }
            }
            assert forall|s: int| 0 <= s < STAGE_COUNT implies #[trigger] self.stage_count_of(n as int, s) == self.subtree_in_stage(n as int, s).len() by {
                if stage_flags(*flags)[s] {
                    assert(self.subtree_in_stage(n as int, s) =~= set![n as int]);
                } else {
                    assert(self.subtree_in_stage(n as int, s) =~= Set::<int>::empty());
                }
            }
            assert forall|x: int| 0 <= x < self.len() implies #[trigger] self.node_ok(x) by {
                if x < len0 {
                    assert(old_self.node_ok(x));
                    assert forall|s: int| 0 <= s < STAGE_COUNT implies #[trigger] self.stage_count_of(x, s) == self.subtree_in_stage(x, s).len() by {
                        assert(x * STAGE_COUNT + s < len0 * STAGE_COUNT) by (nonlinear_arith)
                            requires
                                0 <= x < len0,
                                0 <= s < STAGE_COUNT,
                        ;
                        assert(old_self.stage_count_of(x, s) == old_self.subtree_in_stage(x, s).len());
                    }
                    assert forall|y: int| 0 <= y < self.len() && self.parent_of(y) == Some(x as NodeIndex) implies #[trigger] self.children_of(x).contains(y as NodeIndex) by {
                        if y == n {
                        }
                    }
                    match self.parent_of(x) {
                        Some(p) => {
                            assert(old_self.ancestors(x)[0] == p);
                            assert(p < len0);
                            assert(self.ancestors(p as int) == old_self.ancestors(p as int));
                        },
                        None => {},
                    }
                    assert(self.n_nodes_of(x) == old_self.n_nodes_of(x));
                    assert(self.subtree(x) == old_self.subtree(x));
                } else {
                    assert(x == n);
                    assert forall|y: int| 0 <= y < self.len() && self.parent_of(y) == Some(x as NodeIndex) implies #[trigger] self.children_of(x).contains(y as NodeIndex) by {
                        assert(y != n);
                        assert(old_self.node_ok(y));
                        assert(old_self.ancestors(y)[0] == n);
                    }
                    assert(self.subtree(n as int).len() == 1);
                }
            }
        }
        n
    }
}

impl SpatialHierarchy {
    /// `p` followed by its ancestors: the nodes whose sub-hierarchy contains `p`.
    pub open spec fn chain_of(&self, p: int) -> Seq<NodeIndex> {
        seq![p as NodeIndex] + self.ancestors(p)
    }

    /// Two nodes whose sub-hierarchies share a node are equal or one is an
    /// ancestor of the other.
    pub proof fn lemma_common_descendant(&self, y: int, a: NodeIndex, c: NodeIndex)
        requires
            self.wf(),
            0 <= y < self.len(),
            self.in_subtree(y, a as int),
            self.in_subtree(y, c as int),
        ensures
            a == c || self.ancestors(a as int).contains(c) || self.ancestors(c as int).contains(a),
    {
        let an = self.ancestors(y);
        if y == a as int {
        } else if y == c as int {
        } else {
            let i = choose|i: int| 0 <= i < an.len() && an[i] == a;
            let j = choose|j: int| 0 <= j < an.len() && an[j] == c;
            self.lemma_ancestors_suffix(y, i);
            self.lemma_ancestors_suffix(y, j);
            if i < j {
                assert(self.ancestors(a as int)[j - i - 1] == c);
            } else if j < i {
                assert(self.ancestors(c as int)[i - j - 1] == a);
            }
        }
    }

    /// The sub-hierarchy of a root `c` shares no node with the
    /// sub-hierarchies of the nodes of a chain that does not contain `c`.
    proof fn lemma_chain_disjoint(&self, c: NodeIndex, p: NodeIndex, a: NodeIndex)
        requires
            self.wf(),
            c < self.len(),
            p < self.len(),
            self.parent_of(c as int) is None,
            !self.chain_of(p as int).contains(c),
            self.chain_of(p as int).contains(a),
        ensures
            self.subtree(a as int).disjoint(self.subtree(c as int)),
    {
        assert(self.node_ok(c as int));
        assert(self.ancestors(c as int) == Seq::<NodeIndex>::empty());
        assert(self.node_ok(p as int));
        assert forall|y: int| !(self.subtree(a as int).contains(y) && self.subtree(c as int).contains(y)) by {
            if self.subtree(a as int).contains(y) && self.subtree(c as int).contains(y) {
                self.lemma_common_descendant(y, a, c);
                if a == c {
                } else if self.ancestors(a as int).contains(c) {
                    if a == p {
                        assert(self.chain_of(p as int)[1 + self.ancestors(p as int).index_of(c)] == c);
                    } else {
                        assert(self.ancestors(p as int).contains(a)) by {
                            let k = choose|k: int| 0 <= k < self.chain_of(p as int).len() && self.chain_of(p as int)[k] == a;
                            assert(self.ancestors(p as int)[k - 1] == a);
                        }
                        self.lemma_ancestors_transitive(p as int, a, c);
                        assert(self.chain_of(p as int)[1 + self.ancestors(p as int).index_of(c)] == c);
                    }
                } else {
                    assert(self.ancestors(c as int).contains(a));
                }
            }
        }
    }

    /// The sub-hierarchy of `a` has the node `y` when `a` is in the chain of `y`.
    proof fn lemma_chain_in_subtree(&self, y: int, a: NodeIndex)
        requires
            self.chain_of(y).contains(a),
            0 <= y <= usize::MAX,
        ensures
            self.in_subtree(y, a as int),
    {
        let k = choose|k: int| 0 <= k < self.chain_of(y).len() && self.chain_of(y)[k] == a;
        if k > 0 {
            assert(self.ancestors(y)[k - 1] == a);
            assert(self.ancestors(y).contains(a));
        } else {
            assert(self.chain_of(y)[0] == y as NodeIndex);
        }
    }
}

impl SpatialHierarchy {
    /// The effect of attaching the root `c` below `p` on the ancestor
    /// chains and the counts keeps the hierarchy well formed.
    proof fn lemma_attach_wf(old_h: &Self, new_h: &Self, c: NodeIndex, p: NodeIndex)
        requires
            old_h.wf(),
            c < old_h.len(),
            p < old_h.len(),
            old_h.parent_of(c as int) is None,
            !old_h.chain_of(p as int).contains(c),
            new_h.shape_ok(),
            new_h.len() == old_h.len(),
            forall|x: int| 0 <= x < old_h.len() ==> #[trigger] new_h.parent_of(x) == if x == c {
                Some(p)
            } else {
                old_h.parent_of(x)
            },
            forall|x: int| 0 <= x < old_h.len() ==> #[trigger] new_h.children_of(x) == if x == p {
                old_h.children_of(x).push(c)
            } else {
                old_h.children_of(x)
            },
            forall|x: int| 0 <= x < old_h.len() ==> #[trigger] new_h.ancestors(x) == if old_h.in_subtree(x, c as int) {
                old_h.ancestors(x) + old_h.chain_of(p as int)
            } else {
                old_h.ancestors(x)
            },
            forall|x: int, s: int| 0 <= x < old_h.len() && 0 <= s < STAGE_COUNT ==> #[trigger] new_h.runs_in(x, s) == old_h.runs_in(x, s),
            forall|x: int| 0 <= x < old_h.len() ==> #[trigger] new_h.n_nodes_of(x) == old_h.n_nodes_of(x) + if old_h.chain_of(p as int).contains(x as NodeIndex) {
                old_h.n_nodes_of(c as int)
            } else {
                0
            },
            forall|x: int, s: int| 0 <= x < old_h.len() && 0 <= s < STAGE_COUNT ==> #[trigger] new_h.stage_count_of(x, s) == old_h.stage_count_of(x, s) + if old_h.chain_of(p as int).contains(x as NodeIndex) {
                old_h.stage_count_of(c as int, s)
            } else {
                0
            },
        ensures
            new_h.wf(),
    {
        let len = old_h.len();
        let chain = old_h.chain_of(p as int);
        assert(old_h.node_ok(c as int));
        assert(old_h.node_ok(p as int));
        assert forall|i: int| 0 <= i < chain.len() implies #[trigger] chain[i] < len by {
            if i > 0 {
                assert(chain[i] == old_h.ancestors(p as int)[i - 1]);
            }
        }
        // The sub-hierarchies after the attach.
        assert forall|x: int| 0 <= x < len implies #[trigger] new_h.subtree(x) == if chain.contains(x as NodeIndex) {
            old_h.subtree(x) + old_h.subtree(c as int)
        } else {
            old_h.subtree(x)
        } by {
            let rhs = if chain.contains(x as NodeIndex) {
                old_h.subtree(x) + old_h.subtree(c as int)
            } else {
                old_h.subtree(x)
            };
            assert forall|y: int| new_h.subtree(x).contains(y) <==> rhs.contains(y) by {
                if 0 <= y < len {
                    if old_h.in_subtree(y, c as int) {
                        let a = old_h.ancestors(y);
                        assert(new_h.ancestors(y) == a + chain);
                        if (a + chain).contains(x as NodeIndex) {
                            let k = choose|k: int| 0 <= k < (a + chain).len() && (a + chain)[k] == x as NodeIndex;
                            if k < a.len() {
                                assert(a[k] == x as NodeIndex);
                            } else {
                                assert(chain[k - a.len()] == x as NodeIndex);
                            }
                        }
                        if a.contains(x as NodeIndex) {
                            let k = choose|k: int| 0 <= k < a.len() && a[k] == x as NodeIndex;
                            assert((a + chain)[k] == x as NodeIndex);
                        }
                        if chain.contains(x as NodeIndex) {
                            let k = choose|k: int| 0 <= k < chain.len() && chain[k] == x as NodeIndex;
                            assert((a + chain)[a.len() + k] == x as NodeIndex);
                        }
                    }
                }
            }
            assert(new_h.subtree(x) =~= rhs);
        }
        assert forall|x: int| 0 <= x < len implies #[trigger] new_h.node_ok(x) by {
            // Ancestor chain.
            if old_h.in_subtree(x, c as int) {
                if x == c {
                    assert(!old_h.in_subtree(p as int, c as int)) by {
                        assert(chain[0] == p);
                        if old_h.ancestors(p as int).contains(c) {
                            assert(chain[1 + old_h.ancestors(p as int).index_of(c)] == c);
                        }
                    }
                    assert(new_h.ancestors(c as int) =~= seq![p] + new_h.ancestors(p as int));
                } else {
                    assert(old_h.node_ok(x));
                    let q = old_h.parent_of(x)->0;
                    assert(old_h.ancestors(x)[0] == q);
                    assert(q < len);
                    assert(old_h.in_subtree(q as int, c as int)) by {
                        let a = old_h.ancestors(x);
                        let k = choose|k: int| 0 <= k < a.len() && a[k] == c;
                        if k > 0 {
                            assert(old_h.ancestors(q as int)[k - 1] == c);
                        }
                    }
                    assert(new_h.ancestors(x) =~= seq![q] + new_h.ancestors(q as int));
                }
            } else {
                assert(old_h.node_ok(x));
                match old_h.parent_of(x) {
                    Some(q) => {
                        assert(old_h.ancestors(x)[0] == q);
                        assert(q < len);
                        assert(!old_h.in_subtree(q as int, c as int)) by {
                            if old_h.in_subtree(q as int, c as int) {
                                if q == c {
                                    assert(old_h.ancestors(x)[0] == c);
                                } else {
                                    let k = choose|k: int| 0 <= k < old_h.ancestors(q as int).len() && old_h.ancestors(q as int)[k] == c;
                                    assert(old_h.ancestors(x)[k + 1] == c);
                                }
                            }
                        }
                    },
                    None => {},
                }
            }
            assert forall|i: int| 0 <= i < new_h.ancestors(x).len() implies #[trigger] new_h.ancestors(x)[i] < new_h.len() by {
                assert(old_h.node_ok(x));
                if i >= old_h.ancestors(x).len() {
                    assert(new_h.ancestors(x)[i] == chain[i - old_h.ancestors(x).len()]);
                } else {
                    assert(new_h.ancestors(x)[i] == old_h.ancestors(x)[i]);
                }
            }
            // Children.
            assert(old_h.node_ok(x));
            if x == p {
                assert(!old_h.children_of(x).contains(c)) by {
                    if old_h.children_of(x).contains(c) {
                        let j = choose|j: int| 0 <= j < old_h.children_of(x).len() && old_h.children_of(x)[j] == c;
                        assert(old_h.parent_of(c as int) == Some(x as NodeIndex));
                    }
                }
            }
            assert forall|j: int| 0 <= j < new_h.children_of(x).len() implies {
                &&& #[trigger] new_h.children_of(x)[j] < new_h.len()
                &&& new_h.parent_of(new_h.children_of(x)[j] as int) == Some(x as NodeIndex)
            } by {
                if x == p && j == old_h.children_of(x).len() {
                } else {
                    let y = old_h.children_of(x)[j];
                    assert(new_h.children_of(x)[j] == y);
                    assert(old_h.parent_of(y as int) == Some(x as NodeIndex));
                    assert(y != c);
                }
            }
            assert forall|y: int| 0 <= y < new_h.len() && new_h.parent_of(y) == Some(x as NodeIndex) implies #[trigger] new_h.children_of(x).contains(y as NodeIndex) by {
                if y == c {
                    assert(new_h.children_of(x)[old_h.children_of(x).len() as int] == c);
                } else {
                    assert(old_h.children_of(x).contains(y as NodeIndex));
                    let j = choose|j: int| 0 <= j < old_h.children_of(x).len() && old_h.children_of(x)[j] == y as NodeIndex;
                    assert(new_h.children_of(x)[j] == y as NodeIndex);
                }
            }
            // Counts.
            old_h.lemma_subtree_finite(x);
            old_h.lemma_subtree_finite(c as int);
            if chain.contains(x as NodeIndex) {
                old_h.lemma_chain_disjoint(c, p, x as NodeIndex);
                lemma_set_disjoint_lens(old_h.subtree(x), old_h.subtree(c as int));
            }
            assert forall|s: int| 0 <= s < STAGE_COUNT implies #[trigger] new_h.stage_count_of(x, s) == new_h.subtree_in_stage(x, s).len() by {
                let f = |y: int| old_h.runs_in(y, s);
                assert(old_h.stage_count_of(x, s) == old_h.subtree_in_stage(x, s).len());
                assert(old_h.node_ok(c as int));
                assert(old_h.stage_count_of(c as int, s) == old_h.subtree_in_stage(c as int, s).len());
                let sx = old_h.subtree(x).filter(f);
                let sc = old_h.subtree(c as int).filter(f);
                if chain.contains(x as NodeIndex) {
                    assert(new_h.subtree_in_stage(x, s) =~= sx + sc);
                    assert(sx.disjoint(sc));
                    old_h.subtree(x).lemma_len_filter(f);
                    old_h.subtree(c as int).lemma_len_filter(f);
                    lemma_set_disjoint_lens(sx, sc);
                } else {
                    assert(new_h.subtree_in_stage(x, s) =~= sx);
                }
            }
        }
    }
}

impl SpatialHierarchy {
    /// Along the chain of `p`, each node's parent is the next node, and the
    /// last node is a root.
    proof fn lemma_chain_parents(&self, p: int, j: int)
        requires
            self.wf(),
            0 <= p < self.len(),
            0 <= j < self.chain_of(p).len(),
        ensures
            self.chain_of(p)[j] < self.len(),
            self.parent_of(self.chain_of(p)[j] as int) == if j + 1 < self.chain_of(p).len() {
                Some(self.chain_of(p)[j + 1])
            } else {
                None::<NodeIndex>
            },
    {
        let chain = self.chain_of(p);
        let a = chain[j];
        let rest = if j == 0 {
            self.ancestors(p)
        } else {
            self.lemma_ancestors_suffix(p, j - 1);
            self.ancestors(p).skip(j)
        };
        assert(self.ancestors(a as int) == rest);
        assert(self.node_ok(a as int));
        match self.parent_of(a as int) {
            Some(q) => {
                assert(rest[0] == q);
                assert(chain[j + 1] == rest[0]);
            },
            None => {},
        }
    }

    /// The nodes of the chain of `p` are distinct.
    proof fn lemma_chain_distinct(&self, p: int)
        requires
            self.wf(),
            0 <= p < self.len(),
        ensures
            self.chain_of(p).no_duplicates(),
    {
        self.lemma_ancestors_acyclic(p);
        let chain = self.chain_of(p);
        assert forall|i: int, j: int| 0 <= i < chain.len() && 0 <= j < chain.len() && i != j implies chain[i] != chain[j] by {
            if i == 0 {
                assert(self.ancestors(p)[j - 1] == chain[j]);
            } else if j == 0 {
                assert(self.ancestors(p)[i - 1] == chain[i]);
            } else {
                assert(self.ancestors(p)[i - 1] != self.ancestors(p)[j - 1]);
            }
        }
    }

    /// The counts of `a` and of the root `c` add up to no more than the number
    /// of nodes when `a` is on a chain without `c`.
    proof fn lemma_attach_bounds(&self, c: NodeIndex, p: NodeIndex, a: NodeIndex)
        requires
            self.wf(),
            c < self.len(),
            p < self.len(),
            self.parent_of(c as int) is None,
            !self.chain_of(p as int).contains(c),
            self.chain_of(p as int).contains(a),
            a < self.len(),
        ensures
            self.n_nodes_of(a as int) + self.n_nodes_of(c as int) <= self.len(),
            forall|s: int| 0 <= s < STAGE_COUNT ==> #[trigger] self.stage_count_of(a as int, s) + self.stage_count_of(c as int, s) <= self.len(),
    {
        assert(self.node_ok(a as int));
        assert(self.node_ok(c as int));
        self.lemma_subtree_finite(a as int);
        self.lemma_subtree_finite(c as int);
        self.lemma_chain_disjoint(c, p, a);
        lemma_set_disjoint_lens(self.subtree(a as int), self.subtree(c as int));
        let all = set_int_range(0, self.len() as int);
        lemma_int_range(0, self.len() as int);
        assert((self.subtree(a as int) + self.subtree(c as int)).subset_of(all));
        vstd::set_lib::lemma_len_subset(self.subtree(a as int) + self.subtree(c as int), all);
        assert forall|s: int| 0 <= s < STAGE_COUNT implies #[trigger] self.stage_count_of(a as int, s) + self.stage_count_of(c as int, s) <= self.len() by {
            let f = |y: int| self.runs_in(y, s);
            self.subtree(a as int).lemma_len_filter(f);
            self.subtree(c as int).lemma_len_filter(f);
        }
    }

    /// Attach the root `c` below `p`: `c` and its whole sub-hierarchy are
    /// added to the counts of `p` and of every ancestor of `p`.
    fn attach(&mut self, c: NodeIndex, p: NodeIndex)
        requires
            old(self).wf(),
            c < old(self).len(),
            p < old(self).len(),
            old(self).parent_of(c as int) is None,
            !old(self).chain_of(p as int).contains(c),
        ensures
            final(self).wf(),
            final(self).len() == old(self).len(),
            forall|x: int| 0 <= x < old(self).len() ==> #[trigger] final(self).parent_of(x) == if x == c {
                Some(p)
            } else {
                old(self).parent_of(x)
            },
            forall|x: int| 0 <= x < old(self).len() ==> #[trigger] final(self).children_of(x) == if x == p {
                old(self).children_of(x).push(c)
            } else {
                old(self).children_of(x)
            },
            forall|x: int, s: int| 0 <= x < old(self).len() && 0 <= s < STAGE_COUNT ==> #[trigger] final(self).runs_in(x, s) == old(self).runs_in(x, s),
    {
        let ghost old_h = *self;
        let ghost len = old_h.len();
        let ghost chain = old_h.chain_of(p as int);
        let _sc_len = self.stage_count.len();
        proof {
            old_h.lemma_chain_distinct(p as int);
            assert(old_h.node_ok(c as int));
        }
        let n_c = self.n_nodes[c];
        let mut cur: Option<NodeIndex> = Some(p);
        let ghost mut i: int = 0;
        proof {
            assert(chain.take(0) =~= Seq::<NodeIndex>::empty());
        }
        while cur.is_some()
            invariant
                old_h.wf(),
                len == old_h.len(),
                c < len,
                p < len,
                old_h.parent_of(c as int) is None,
                chain == old_h.chain_of(p as int),
                !chain.contains(c),
                chain.no_duplicates(),
                _sc_len == len * STAGE_COUNT,
                n_c == old_h.n_nodes_of(c as int),
                self.parent == old_h.parent,
                self.children == old_h.children,
                self.runs == old_h.runs,
                self.anc == old_h.anc,
                self.n_nodes@.len() == len,
                self.stage_count@.len() == len * STAGE_COUNT,
                0 <= i <= chain.len(),
                cur == if i < chain.len() {
                    Some(chain[i])
                } else {
                    None::<NodeIndex>
                },
                forall|x: int| 0 <= x < len ==> #[trigger] self.n_nodes@[x] == old_h.n_nodes_of(x) + if chain.take(i).contains(x as NodeIndex) {
                    n_c as int
                } else {
                    0
                },
                forall|x: int, s: int| 0 <= x < len && 0 <= s < STAGE_COUNT ==> #[trigger] self.stage_count@[x * STAGE_COUNT + s] == old_h.stage_count_of(x, s) + if chain.take(i).contains(x as NodeIndex) {
                    old_h.stage_count_of(c as int, s) as int
                } else {
                    0
                },
            decreases chain.len() - i,
        {
            let a = match cur {
                Some(a) => a,
                None => {
                    return;
                },
            };
            proof {
                old_h.lemma_chain_parents(p as int, i);
                assert(chain.contains(a));
                old_h.lemma_attach_bounds(c, p, a);
                assert(!chain.take(i).contains(a)) by {
                    if chain.take(i).contains(a) {
                        let k = choose|k: int| 0 <= k < i && chain.take(i)[k] == a;
                        assert(chain[k] == chain[i]);
                    }
                }
                assert(a != c);
                assert(chain.take(i + 1) =~= chain.take(i).push(a));
            }
            let na = self.n_nodes[a];
            self.n_nodes.set(a, na + n_c);
            let ghost before = self.stage_count@;
            let ghost nn = self.n_nodes;
            let mut s: usize = 0;
            while s < STAGE_COUNT
                invariant
                    self.parent == old_h.parent,
                    self.children == old_h.children,
                    self.runs == old_h.runs,
                    self.anc == old_h.anc,
                    self.n_nodes == nn,
                    0 <= s <= STAGE_COUNT,
                    a < len,
                    c < len,
                    a != c,
                    _sc_len == len * STAGE_COUNT,
                    self.stage_count@.len() == len * STAGE_COUNT,
                    old_h.wf(),
                    len == old_h.len(),
                    forall|x: int, t: int| 0 <= x < len && 0 <= t < STAGE_COUNT && x != a ==> #[trigger] self.stage_count@[x * STAGE_COUNT + t] == before[x * STAGE_COUNT + t],
                    forall|t: int| s <= t < STAGE_COUNT ==> #[trigger] self.stage_count@[a * STAGE_COUNT + t] == before[a * STAGE_COUNT + t],
                    forall|t: int| 0 <= t < s ==> #[trigger] self.stage_count@[a * STAGE_COUNT + t] == before[a * STAGE_COUNT + t] + before[c * STAGE_COUNT + t],
                    forall|t: int| 0 <= t < STAGE_COUNT ==> #[trigger] before[a * STAGE_COUNT + t] + before[c * STAGE_COUNT + t] <= len,
                    before.len() == len * STAGE_COUNT,
                decreases STAGE_COUNT - s,
            {
                proof {
                    assert(a * STAGE_COUNT + s < len * STAGE_COUNT) by (nonlinear_arith)
                        requires
                            a < len,
                            s < STAGE_COUNT,
                    ;
                    assert(c * STAGE_COUNT + s < len * STAGE_COUNT) by (nonlinear_arith)
                        requires
                            c < len,
                            s < STAGE_COUNT,
                    ;
                    assert forall|x: int, t: int| 0 <= x < len && 0 <= t < STAGE_COUNT && x != a implies #[trigger] (x * STAGE_COUNT + t) != a * STAGE_COUNT + s by {
                        assert(x * STAGE_COUNT + t != a * STAGE_COUNT + s) by (nonlinear_arith)
                            requires
                                0 <= t < STAGE_COUNT,
                                0 <= s < STAGE_COUNT,
                                x != a,
                        ;
                    }
                    assert forall|t: int| 0 <= t < STAGE_COUNT && t != s implies #[trigger] (a * STAGE_COUNT + t) != a * STAGE_COUNT + s by {}
                }
                let k = a * STAGE_COUNT + s;
                let kc = c * STAGE_COUNT + s;
                let v = self.stage_count[k] + self.stage_count[kc];
                self.stage_count.set(k, v);
                s = s + 1;
            }
            proof {
                assert forall|x: int| 0 <= x < len implies #[trigger] self.n_nodes@[x] == old_h.n_nodes_of(x) + if chain.take(i + 1).contains(x as NodeIndex) {
                    n_c as int
                } else {
                    0
                } by {
                    if x != a {
                        assert(chain.take(i + 1).contains(x as NodeIndex) == chain.take(i).contains(x as NodeIndex)) by {
                            if chain.take(i + 1).contains(x as NodeIndex) {
                                let k = choose|k: int| 0 <= k < i + 1 && #[trigger] chain.take(i + 1)[k] == x as NodeIndex;
                                assert(chain.take(i)[k] == x as NodeIndex);
                            }
                        }
                    } else {
                        assert(chain.take(i + 1)[i] == a);
                    }
                }
                assert forall|x: int, t: int| 0 <= x < len && 0 <= t < STAGE_COUNT implies #[trigger] self.stage_count@[x * STAGE_COUNT + t] == old_h.stage_count_of(x, t) + if chain.take(i + 1).contains(x as NodeIndex) {
                    old_h.stage_count_of(c as int, t) as int
                } else {
                    0
                } by {
                    if x != a {
                        assert(chain.take(i + 1).contains(x as NodeIndex) == chain.take(i).contains(x as NodeIndex)) by {
                            if chain.take(i + 1).contains(x as NodeIndex) {
                                let k = choose|k: int| 0 <= k < i + 1 && #[trigger] chain.take(i + 1)[k] == x as NodeIndex;
                                assert(chain.take(i)[k] == x as NodeIndex);
                            }
                        }
                    } else {
                        assert(chain.take(i + 1)[i] == a);
                        assert(!chain.take(i).contains(c));
                    }
                }
            }
            cur = self.parent[a];
            proof {
                i = i + 1;
            }
        }
        proof {
            assert(chain.take(i) =~= chain);
        }
        self.parent.set(c, Some(p));
        let mut row: Vec<NodeIndex> = Vec::new();
        std::mem::swap(&mut row, &mut self.children[p]);
        row.push(c);
        self.children.set(p, row);
        self.anc = Ghost(Seq::new(len, |x: int| if old_h.in_subtree(x, c as int) {
            old_h.ancestors(x) + chain
        } else {
            old_h.ancestors(x)
        }));
        proof {
            Self::lemma_attach_wf(&old_h, self, c, p);
        }
    }
}

/// Removing position `j` of a sequence without repetition by moving its last
/// element there removes exactly that element.
proof fn lemma_swap_remove(ch: Seq<NodeIndex>, j: int)
    requires
        ch.no_duplicates(),
        0 <= j < ch.len(),
    ensures
        ch.update(j, ch.last()).drop_last().no_duplicates(),
        forall|y: NodeIndex| #[trigger] ch.update(j, ch.last()).drop_last().contains(y) <==> (ch.contains(y) && y != ch[j]),
{
    let r = ch.update(j, ch.last()).drop_last();
    let n = ch.len() - 1;
    assert forall|a: int, b: int| 0 <= a < r.len() && 0 <= b < r.len() && a != b implies r[a] != r[b] by {
        let ia = if a == j { n } else { a };
        let ib = if b == j { n } else { b };
        assert(r[a] == ch[ia]);
        assert(r[b] == ch[ib]);
    }
    assert forall|y: NodeIndex| #[trigger] r.contains(y) <==> (ch.contains(y) && y != ch[j]) by {
        if r.contains(y) {
            let a = choose|a: int| 0 <= a < r.len() && r[a] == y;
            let ia = if a == j { n } else { a };
            assert(ch[ia] == y);
        }
        if ch.contains(y) && y != ch[j] {
            let a = choose|a: int| 0 <= a < ch.len() && ch[a] == y;
            if a == n {
                assert(r[j] == y);
            } else {
                assert(r[a] == y);
            }
        }
    }
}

impl SpatialHierarchy {
    /// When `p` is the parent of `c`, the sub-hierarchy of `c` lies in the
    /// sub-hierarchy of every node of the chain of `p`.
    proof fn lemma_subtree_within_chain(&self, c: NodeIndex, p: NodeIndex, a: NodeIndex)
        requires
            self.wf(),
            c < self.len(),
            self.parent_of(c as int) == Some(p),
            self.chain_of(p as int).contains(a),
        ensures
            self.subtree(c as int).subset_of(self.subtree(a as int)),
    {
        assert(self.node_ok(c as int));
        assert(self.ancestors(c as int) == self.chain_of(p as int));
        assert(self.ancestors(c as int).contains(a));
        assert forall|y: int| self.subtree(c as int).contains(y) implies self.subtree(a as int).contains(y) by {
            if y != c {
                self.lemma_ancestors_transitive(y, c, a);
            }
        }
    }

    /// The effect of detaching `c` from its parent `p` on the ancestor chains
    /// and the counts keeps the hierarchy well formed.
    proof fn lemma_detach_wf(old_h: &Self, new_h: &Self, c: NodeIndex, p: NodeIndex)
        requires
            old_h.wf(),
            c < old_h.len(),
            old_h.parent_of(c as int) == Some(p),
            new_h.shape_ok(),
            new_h.len() == old_h.len(),
            forall|x: int| 0 <= x < old_h.len() ==> #[trigger] new_h.parent_of(x) == if x == c {
                None
            } else {
                old_h.parent_of(x)
            },
            forall|x: int| 0 <= x < old_h.len() && x != p ==> #[trigger] new_h.children_of(x) == old_h.children_of(x),
            new_h.children_of(p as int).no_duplicates(),
            forall|y: NodeIndex| #[trigger] new_h.children_of(p as int).contains(y) <==> (old_h.children_of(p as int).contains(y) && y != c),
            forall|x: int| 0 <= x < old_h.len() ==> #[trigger] new_h.ancestors(x) == if old_h.in_subtree(x, c as int) {
                old_h.ancestors(x).take(old_h.ancestors(x).len() - old_h.chain_of(p as int).len())
            } else {
                old_h.ancestors(x)
            },
            forall|x: int, s: int| 0 <= x < old_h.len() && 0 <= s < STAGE_COUNT ==> #[trigger] new_h.runs_in(x, s) == old_h.runs_in(x, s),
            forall|x: int| 0 <= x < old_h.len() ==> #[trigger] new_h.n_nodes_of(x) == old_h.n_nodes_of(x) - if old_h.chain_of(p as int).contains(x as NodeIndex) {
                old_h.n_nodes_of(c as int)
            } else {
                0
            },
            forall|x: int, s: int| 0 <= x < old_h.len() && 0 <= s < STAGE_COUNT ==> #[trigger] new_h.stage_count_of(x, s) == old_h.stage_count_of(x, s) - if old_h.chain_of(p as int).contains(x as NodeIndex) {
                old_h.stage_count_of(c as int, s)
            } else {
                0
            },
        ensures
            new_h.wf(),
    {
        let len = old_h.len();
        let chain = old_h.chain_of(p as int);
        assert(old_h.node_ok(c as int));
        assert(old_h.ancestors(c as int) == chain);
        assert(old_h.ancestors(c as int)[0] == p);
        assert(p < len);
        assert(old_h.node_ok(p as int));
        old_h.lemma_ancestors_acyclic(c as int);
        // Every node below `c` has the chain of `p` at the end of its ancestors.
        assert forall|y: int| 0 <= y < len && #[trigger] old_h.in_subtree(y, c as int) implies {
            &&& old_h.ancestors(y).len() >= chain.len()
            &&& old_h.ancestors(y) == old_h.ancestors(y).take(old_h.ancestors(y).len() - chain.len()) + chain
            &&& old_h.ancestors(y).no_duplicates()
        } by {
            old_h.lemma_ancestors_acyclic(y);
            if y != c {
                let i = choose|i: int| 0 <= i < old_h.ancestors(y).len() && old_h.ancestors(y)[i] == c;
                old_h.lemma_ancestors_suffix(y, i);
                assert(old_h.ancestors(y) =~= old_h.ancestors(y).take(i + 1) + chain);
            } else {
                assert(old_h.ancestors(y) =~= old_h.ancestors(y).take(0) + chain);
            }
        }
        // The sub-hierarchies after the detach.
        assert forall|x: int| 0 <= x < len implies #[trigger] new_h.subtree(x) == if chain.contains(x as NodeIndex) {
            old_h.subtree(x).difference(old_h.subtree(c as int))
        } else {
            old_h.subtree(x)
        } by {
            let rhs = if chain.contains(x as NodeIndex) {
                old_h.subtree(x).difference(old_h.subtree(c as int))
            } else {
                old_h.subtree(x)
            };
            assert forall|y: int| new_h.subtree(x).contains(y) <==> rhs.contains(y) by {
                if 0 <= y < len && old_h.in_subtree(y, c as int) {
                    let a = old_h.ancestors(y);
                    let pre = a.take(a.len() - chain.len());
                    assert(a == pre + chain);
                    assert(new_h.ancestors(y) == pre);
                    if pre.contains(x as NodeIndex) {
                        let k = choose|k: int| 0 <= k < pre.len() && pre[k] == x as NodeIndex;
                        assert(a[k] == x as NodeIndex);
                        assert(a.contains(x as NodeIndex));
                        if chain.contains(x as NodeIndex) {
                            let m = choose|m: int| 0 <= m < chain.len() && chain[m] == x as NodeIndex;
                            assert(a[pre.len() + m] == x as NodeIndex);
                        }
                    }
                    if a.contains(x as NodeIndex) && !chain.contains(x as NodeIndex) {
                        let k = choose|k: int| 0 <= k < a.len() && a[k] == x as NodeIndex;
                        if k >= pre.len() {
                            assert(chain[k - pre.len()] == x as NodeIndex);
                        }
                        assert(pre[k] == x as NodeIndex);
                    }
                    if y == x && chain.contains(x as NodeIndex) {
                        let m = choose|m: int| 0 <= m < chain.len() && chain[m] == x as NodeIndex;
                        assert(a[pre.len() + m] == x as NodeIndex);
                        assert(a.contains(y as NodeIndex));
                        old_h.lemma_ancestors_acyclic(y);
                    }
                }
            }
            assert(new_h.subtree(x) =~= rhs);
        }
        assert forall|x: int| 0 <= x < len implies #[trigger] new_h.node_ok(x) by {
            assert(old_h.node_ok(x));
            // Ancestor chain.
            if old_h.in_subtree(x, c as int) {
                if x != c {
                    let q = old_h.parent_of(x)->0;
                    assert(old_h.ancestors(x)[0] == q);
                    assert(q < len);
                    assert(old_h.in_subtree(q as int, c as int)) by {
                        let a = old_h.ancestors(x);
                        let k = choose|k: int| 0 <= k < a.len() && a[k] == c;
                        if k > 0 {
                            assert(old_h.ancestors(q as int)[k - 1] == c);
                        }
                    }
                    assert(old_h.ancestors(q as int).len() >= chain.len());
                    assert(new_h.ancestors(x) =~= seq![q] + new_h.ancestors(q as int));
                } else {
                    assert(new_h.ancestors(x) =~= Seq::<NodeIndex>::empty());
                }
            } else {
                match old_h.parent_of(x) {
                    Some(q) => {
                        assert(old_h.ancestors(x)[0] == q);
                        assert(q < len);
                        assert(!old_h.in_subtree(q as int, c as int)) by {
                            if old_h.in_subtree(q as int, c as int) {
                                if q == c {
                                    assert(old_h.ancestors(x)[0] == c);
                                } else {
                                    let k = choose|k: int| 0 <= k < old_h.ancestors(q as int).len() && old_h.ancestors(q as int)[k] == c;
                                    assert(old_h.ancestors(x)[k + 1] == c);
                                }
                            }
                        }
                    },
                    None => {},
                }
            }
            assert forall|i: int| 0 <= i < new_h.ancestors(x).len() implies #[trigger] new_h.ancestors(x)[i] < new_h.len() by {
                assert(new_h.ancestors(x)[i] == old_h.ancestors(x)[i]);
            }
            // Children.
            if x == p {
                assert forall|j: int| 0 <= j < new_h.children_of(x).len() implies {
                    &&& #[trigger] new_h.children_of(x)[j] < new_h.len()
                    &&& new_h.parent_of(new_h.children_of(x)[j] as int) == Some(x as NodeIndex)
                } by {
                    let y = new_h.children_of(x)[j];
                    assert(new_h.children_of(x).contains(y));
                    assert(old_h.children_of(x).contains(y));
                    let k = choose|k: int| 0 <= k < old_h.children_of(x).len() && old_h.children_of(x)[k] == y;
                }
                assert forall|y: int| 0 <= y < new_h.len() && new_h.parent_of(y) == Some(x as NodeIndex) implies #[trigger] new_h.children_of(x).contains(y as NodeIndex) by {
                    assert(old_h.children_of(x).contains(y as NodeIndex));
                }
            } else {
                assert forall|j: int| 0 <= j < new_h.children_of(x).len() implies {
                    &&& #[trigger] new_h.children_of(x)[j] < new_h.len()
                    &&& new_h.parent_of(new_h.children_of(x)[j] as int) == Some(x as NodeIndex)
                } by {
                    let y = old_h.children_of(x)[j];
                    assert(old_h.parent_of(y as int) == Some(x as NodeIndex));
                }
            }
            // Counts.
            old_h.lemma_subtree_finite(x);
            old_h.lemma_subtree_finite(c as int);
            if chain.contains(x as NodeIndex) {
                old_h.lemma_subtree_within_chain(c, p, x as NodeIndex);
                let sx = old_h.subtree(x);
                let sc = old_h.subtree(c as int);
                assert(sx.difference(sc) + sc =~= sx);
                vstd::set_lib::lemma_len_difference(sx, sc);
                lemma_set_disjoint_lens(sx.difference(sc), sc);
            }
            assert forall|s: int| 0 <= s < STAGE_COUNT implies #[trigger] new_h.stage_count_of(x, s) == new_h.subtree_in_stage(x, s).len() by {
                let f = |y: int| old_h.runs_in(y, s);
                assert(old_h.stage_count_of(x, s) == old_h.subtree_in_stage(x, s).len());
                assert(old_h.node_ok(c as int));
                assert(old_h.stage_count_of(c as int, s) == old_h.subtree_in_stage(c as int, s).len());
                if chain.contains(x as NodeIndex) {
                    let sx = old_h.subtree(x).filter(f);
                    let sc = old_h.subtree(c as int).filter(f);
                    old_h.subtree(x).lemma_len_filter(f);
                    old_h.subtree(c as int).lemma_len_filter(f);
                    assert(new_h.subtree_in_stage(x, s) =~= sx.difference(sc));
                    assert(sx.difference(sc) + sc =~= sx);
                    vstd::set_lib::lemma_len_difference(sx, sc);
                    lemma_set_disjoint_lens(sx.difference(sc), sc);
                } else {
                    assert(new_h.subtree_in_stage(x, s) =~= old_h.subtree_in_stage(x, s));
                }
            }
        }
    }
}

impl SpatialHierarchy {
    /// The counts of `c` are within those of every node of the chain of its
    /// parent `p`.
    proof fn lemma_detach_bounds(&self, c: NodeIndex, p: NodeIndex, a: NodeIndex)
        requires
            self.wf(),
            c < self.len(),
            a < self.len(),
            self.parent_of(c as int) == Some(p),
            self.chain_of(p as int).contains(a),
        ensures
            self.n_nodes_of(c as int) <= self.n_nodes_of(a as int),
            forall|s: int| 0 <= s < STAGE_COUNT ==> #[trigger] self.stage_count_of(c as int, s) <= self.stage_count_of(a as int, s),
    {
        assert(self.node_ok(a as int));
        assert(self.node_ok(c as int));
        self.lemma_subtree_finite(a as int);
        self.lemma_subtree_finite(c as int);
        self.lemma_subtree_within_chain(c, p, a);
        vstd::set_lib::lemma_len_subset(self.subtree(c as int), self.subtree(a as int));
        assert forall|s: int| 0 <= s < STAGE_COUNT implies #[trigger] self.stage_count_of(c as int, s) <= self.stage_count_of(a as int, s) by {
            let f = |y: int| self.runs_in(y, s);
            self.subtree(a as int).lemma_len_filter(f);
            assert(self.subtree(c as int).filter(f).subset_of(self.subtree(a as int).filter(f)));
            vstd::set_lib::lemma_len_subset(self.subtree(c as int).filter(f), self.subtree(a as int).filter(f));
        }
    }

    /// Clears the parent of `c`: `c` becomes the root of its own hierarchy,
    /// and its whole sub-hierarchy leaves the counts of its former parent and
    /// of every ancestor of it. Nothing happens to a root.
    pub fn clear_parent(&mut self, c: NodeIndex)
        requires
            old(self).wf(),
            c < old(self).len(),
        ensures
            final(self).wf(),
            final(self).len() == old(self).len(),
            forall|x: int| 0 <= x < old(self).len() ==> #[trigger] final(self).parent_of(x) == if x == c {
                None
            } else {
                old(self).parent_of(x)
            },
            forall|x: int| 0 <= x < old(self).len() && old(self).parent_of(c as int) != Some(x as NodeIndex) ==> #[trigger] final(self).children_of(x) == old(self).children_of(x),
            forall|x: int, y: NodeIndex| 0 <= x < old(self).len() && old(self).parent_of(c as int) == Some(x as NodeIndex) ==> (#[trigger] final(self).children_of(x).contains(y) <==> (old(self).children_of(x).contains(y) && y != c)),
            forall|x: int, s: int| 0 <= x < old(self).len() && 0 <= s < STAGE_COUNT ==> #[trigger] final(self).runs_in(x, s) == old(self).runs_in(x, s),
            forall|y: int| 0 <= y < old(self).len() && #[trigger] old(self).in_subtree(y, c as int) ==> final(self).in_subtree(y, c as int),
            forall|y: int| 0 <= y < old(self).len() && !old(self).in_subtree(y, c as int) ==> #[trigger] final(self).ancestors(y) == old(self).ancestors(y),
    {
        let ghost old_h = *self;
        let ghost len = old_h.len();
        let p = match self.parent[c] {
            Some(p) => p,
            None => {
                proof {
                    assert forall|x: int, y: NodeIndex| 0 <= x < old_h.len() && old_h.parent_of(c as int) == Some(x as NodeIndex) implies (#[trigger] self.children_of(x).contains(y) <==> (old_h.children_of(x).contains(y) && y != c)) by {}
                }
                return;
            },
        };
        let ghost chain = old_h.chain_of(p as int);
        let _sc_len = self.stage_count.len();
        proof {
            assert(old_h.node_ok(c as int));
            assert(old_h.ancestors(c as int)[0] == p);
            assert(p < len);
            old_h.lemma_chain_distinct(p as int);
            old_h.lemma_ancestors_acyclic(c as int);
            assert(!chain.contains(c));
        }
        let n_c = self.n_nodes[c];
        let mut cur: Option<NodeIndex> = Some(p);
        let ghost mut i: int = 0;
        proof {
            assert(chain.take(0) =~= Seq::<NodeIndex>::empty());
        }
        while cur.is_some()
            invariant
                old_h.wf(),
                len == old_h.len(),
                c < len,
                p < len,
                old_h.parent_of(c as int) == Some(p),
                chain == old_h.chain_of(p as int),
                !chain.contains(c),
                chain.no_duplicates(),
                _sc_len == len * STAGE_COUNT,
                n_c == old_h.n_nodes_of(c as int),
                self.parent == old_h.parent,
                self.children == old_h.children,
                self.runs == old_h.runs,
                self.anc == old_h.anc,
                self.n_nodes@.len() == len,
                self.stage_count@.len() == len * STAGE_COUNT,
                0 <= i <= chain.len(),
                cur == if i < chain.len() {
                    Some(chain[i])
                } else {
                    None::<NodeIndex>
                },
                forall|x: int| 0 <= x < len ==> #[trigger] self.n_nodes@[x] == old_h.n_nodes_of(x) - if chain.take(i).contains(x as NodeIndex) {
                    n_c as int
                } else {
                    0
                },
                forall|x: int, s: int| 0 <= x < len && 0 <= s < STAGE_COUNT ==> #[trigger] self.stage_count@[x * STAGE_COUNT + s] == old_h.stage_count_of(x, s) - if chain.take(i).contains(x as NodeIndex) {
                    old_h.stage_count_of(c as int, s) as int
                } else {
                    0
                },
            decreases chain.len() - i,
        {
            let a = match cur {
                Some(a) => a,
                None => {
                    return;
                },
            };
            proof {
                old_h.lemma_chain_parents(p as int, i);
                assert(chain.contains(a));
                old_h.lemma_detach_bounds(c, p, a);
                assert(!chain.take(i).contains(a)) by {
                    if chain.take(i).contains(a) {
                        let k = choose|k: int| 0 <= k < i && chain.take(i)[k] == a;
                        assert(chain[k] == chain[i]);
                    }
                }
                assert(a != c);
                assert(chain.take(i + 1) =~= chain.take(i).push(a));
            }
            let na = self.n_nodes[a];
            self.n_nodes.set(a, na - n_c);
            let ghost before = self.stage_count@;
            let ghost nn = self.n_nodes;
            let mut s: usize = 0;
            while s < STAGE_COUNT
                invariant
                    self.parent == old_h.parent,
                    self.children == old_h.children,
                    self.runs == old_h.runs,
                    self.anc == old_h.anc,
                    self.n_nodes == nn,
                    0 <= s <= STAGE_COUNT,
                    a < len,
                    c < len,
                    a != c,
                    _sc_len == len * STAGE_COUNT,
                    self.stage_count@.len() == len * STAGE_COUNT,
                    old_h.wf(),
                    len == old_h.len(),
                    forall|x: int, t: int| 0 <= x < len && 0 <= t < STAGE_COUNT && x != a ==> #[trigger] self.stage_count@[x * STAGE_COUNT + t] == before[x * STAGE_COUNT + t],
                    forall|t: int| s <= t < STAGE_COUNT ==> #[trigger] self.stage_count@[a * STAGE_COUNT + t] == before[a * STAGE_COUNT + t],
                    forall|t: int| 0 <= t < s ==> #[trigger] self.stage_count@[a * STAGE_COUNT + t] == before[a * STAGE_COUNT + t] - before[c * STAGE_COUNT + t],
                    forall|t: int| 0 <= t < STAGE_COUNT ==> #[trigger] before[c * STAGE_COUNT + t] <= before[a * STAGE_COUNT + t],
                    before.len() == len * STAGE_COUNT,
                decreases STAGE_COUNT - s,
            {
                proof {
                    assert(a * STAGE_COUNT + s < len * STAGE_COUNT) by (nonlinear_arith)
                        requires
                            a < len,
                            s < STAGE_COUNT,
                    ;
                    assert(c * STAGE_COUNT + s < len * STAGE_COUNT) by (nonlinear_arith)
                        requires
                            c < len,
                            s < STAGE_COUNT,
                    ;
                    assert forall|x: int, t: int| 0 <= x < len && 0 <= t < STAGE_COUNT && x != a implies #[trigger] (x * STAGE_COUNT + t) != a * STAGE_COUNT + s by {
                        assert(x * STAGE_COUNT + t != a * STAGE_COUNT + s) by (nonlinear_arith)
                            requires
                                0 <= t < STAGE_COUNT,
                                0 <= s < STAGE_COUNT,
                                x != a,
                        ;
                    }
                    assert forall|t: int| 0 <= t < STAGE_COUNT && t != s implies #[trigger] (a * STAGE_COUNT + t) != a * STAGE_COUNT + s by {}
                }
                let k = a * STAGE_COUNT + s;
                let kc = c * STAGE_COUNT + s;
                let v = self.stage_count[k] - self.stage_count[kc];
                self.stage_count.set(k, v);
                s = s + 1;
            }
            proof {
                assert forall|x: int| 0 <= x < len implies #[trigger] self.n_nodes@[x] == old_h.n_nodes_of(x) - if chain.take(i + 1).contains(x as NodeIndex) {
                    n_c as int
                } else {
                    0
                } by {
                    if x != a {
                        assert(chain.take(i + 1).contains(x as NodeIndex) == chain.take(i).contains(x as NodeIndex)) by {
                            if chain.take(i + 1).contains(x as NodeIndex) {
                                let k = choose|k: int| 0 <= k < i + 1 && #[trigger] chain.take(i + 1)[k] == x as NodeIndex;
                                assert(chain.take(i)[k] == x as NodeIndex);
                            }
                        }
                    } else {
                        assert(chain.take(i + 1)[i] == a);
                    }
                }
                assert forall|x: int, t: int| 0 <= x < len && 0 <= t < STAGE_COUNT implies #[trigger] self.stage_count@[x * STAGE_COUNT + t] == old_h.stage_count_of(x, t) - if chain.take(i + 1).contains(x as NodeIndex) {
                    old_h.stage_count_of(c as int, t) as int
                } else {
                    0
                } by {
                    if x != a {
                        assert(chain.take(i + 1).contains(x as NodeIndex) == chain.take(i).contains(x as NodeIndex)) by {
                            if chain.take(i + 1).contains(x as NodeIndex) {
                                let k = choose|k: int| 0 <= k < i + 1 && #[trigger] chain.take(i + 1)[k] == x as NodeIndex;
                                assert(chain.take(i)[k] == x as NodeIndex);
                            }
                        }
                    } else {
                        assert(chain.take(i + 1)[i] == a);
                        assert(!chain.take(i).contains(c));
                    }
                }
            }
            cur = self.parent[a];
            proof {
                i = i + 1;
            }
        }
        proof {
            assert(chain.take(i) =~= chain);
        }
        // Remove `c` from the children of `p`.
        let mut row: Vec<NodeIndex> = Vec::new();
        std::mem::swap(&mut row, &mut self.children[p]);
        proof {
            assert(row@ == old_h.children_of(p as int));
            assert(old_h.node_ok(p as int));
            assert(old_h.parent_of(c as int) == Some(p as NodeIndex));
            assert(old_h.children_of(p as int).contains((c as int) as NodeIndex));
        }
        let mut j: usize = 0;
        while j < row.len() && row[j] != c
            invariant
                j <= row@.len(),
                row@ == old_h.children_of(p as int),
                row@.contains(c),
                forall|k: int| 0 <= k < j ==> row@[k] != c,
            decreases row@.len() - j,
        {
            j = j + 1;
        }
        proof {
            if j == row@.len() {
                let k = choose|k: int| 0 <= k < row@.len() && row@[k] == c;
            }
            lemma_swap_remove(row@, j as int);
        }
        row.swap_remove(j);
        self.children.set(p, row);
        self.parent.set(c, None);
        self.anc = Ghost(Seq::new(len, |x: int| if old_h.in_subtree(x, c as int) {
            old_h.ancestors(x).take(old_h.ancestors(x).len() - chain.len())
        } else {
            old_h.ancestors(x)
        }));
        proof {
            Self::lemma_detach_wf(&old_h, self, c, p);
            assert forall|y: int| 0 <= y < len && #[trigger] old_h.in_subtree(y, c as int) implies self.in_subtree(y, c as int) by {
                if y != c {
                    let a = old_h.ancestors(y);
                    let k = choose|k: int| 0 <= k < a.len() && a[k] == c;
                    old_h.lemma_ancestors_suffix(y, k);
                    assert(a.skip(k + 1) == chain);
                    assert(self.ancestors(y)[k] == c);
                    assert(self.ancestors(y).contains(c));
                }
            }
        }
    }
}

impl SpatialHierarchy {
    /// Sets `p` as the parent of `c`, after clearing the former parent of `c`
    /// if it had one. `p` must not be `c` or below it, which would close a
    /// cycle.
    pub fn set_parent(&mut self, c: NodeIndex, p: NodeIndex)
        requires
            old(self).wf(),
            c < old(self).len(),
            p < old(self).len(),
            !old(self).in_subtree(p as int, c as int),
        ensures
            final(self).wf(),
            final(self).len() == old(self).len(),
            forall|x: int| 0 <= x < old(self).len() ==> #[trigger] final(self).parent_of(x) == if x == c {
                Some(p)
            } else {
                old(self).parent_of(x)
            },
            final(self).children_of(p as int).contains(c),
            forall|x: int, s: int| 0 <= x < old(self).len() && 0 <= s < STAGE_COUNT ==> #[trigger] final(self).runs_in(x, s) == old(self).runs_in(x, s),
    {
        let ghost old_h = *self;
        self.clear_parent(c);
        let ghost mid = *self;
        proof {
            assert(mid.ancestors(p as int) == old_h.ancestors(p as int));
            assert(!mid.chain_of(p as int).contains(c)) by {
                if mid.chain_of(p as int).contains(c) {
                    let k = choose|k: int| 0 <= k < mid.chain_of(p as int).len() && mid.chain_of(p as int)[k] == c;
                    if k == 0 {
                        assert(p == c);
                    } else {
                        assert(old_h.ancestors(p as int)[k - 1] == c);
                        assert(old_h.ancestors(p as int).contains(c));
                    }
                }
            }
        }
        self.attach(c, p);
        proof {
            assert(self.children_of(p as int) == mid.children_of(p as int).push(c));
            assert(self.children_of(p as int)[mid.children_of(p as int).len() as int] == c);
        }
    }

    /// The parent of node `x`.
    pub fn get_parent(&self, x: NodeIndex) -> (r: Option<NodeIndex>)
        requires
            x < self.len(),
        ensures
            r == self.parent_of(x as int),
    {
        self.parent[x]
    }

    /// The children of node `x`.
    pub fn get_children(&self, x: NodeIndex) -> (r: &Vec<NodeIndex>)
        requires
            self.wf(),
            x < self.len(),
        ensures
            r@ == self.children_of(x as int),
    {
        &self.children[x]
    }

    /// Checks if node `x` is the root of some hierarchy.
    pub fn is_root(&self, x: NodeIndex) -> (r: bool)
        requires
            x < self.len(),
        ensures
            r == self.parent_of(x as int) is None,
    {
        self.parent[x].is_none()
    }

    /// How many nodes the hierarchy below `x` has, `x` included.
    pub fn get_n_nodes(&self, x: NodeIndex) -> (r: usize)
        requires
            self.wf(),
            x < self.len(),
        ensures
            r == self.n_nodes_of(x as int),
            r == self.subtree(x as int).len(),
    {
        proof {
            assert(self.node_ok(x as int));
        }
        self.n_nodes[x]
    }

    /// How many nodes of the hierarchy below `x`, `x` included, run in a stage.
    pub fn get_stage_count(&self, x: NodeIndex, stage_id: StageID) -> (r: usize)
        requires
            self.wf(),
            x < self.len(),
        ensures
            r == self.stage_count_of(x as int, stage_id as int),
            r == self.subtree_in_stage(x as int, stage_id as int).len(),
    {
        let _l = self.stage_count.len();
        proof {
            assert(self.node_ok(x as int));
            assert(x * STAGE_COUNT + stage_id < self.len() * STAGE_COUNT) by (nonlinear_arith)
                requires
                    x < self.len(),
                    stage_id < STAGE_COUNT,
            ;
            assert(self.stage_count_of(x as int, stage_id as int) == self.subtree_in_stage(x as int, stage_id as int).len());
        }
        self.stage_count[x * STAGE_COUNT + stage_id as usize]
    }

    /// Checks if the hierarchy of root `x` should be scheduled in a stage: it
    /// is a root and some node of its hierarchy runs in the stage. Nodes that
    /// are not roots run when their root runs.
    pub fn should_run_in_stage(&self, x: NodeIndex, stage_id: StageID) -> (r: bool)
        requires
            self.wf(),
            x < self.len(),
        ensures
            r == (self.parent_of(x as int) is None && self.subtree_in_stage(x as int, stage_id as int).len() > 0),
    {
        if !self.is_root(x) {
            return false;
        }
        self.get_stage_count(x, stage_id) > 0
    }

    /// The root of the hierarchy of `x`: the last node of its chain.
    pub fn get_root(&self, x: NodeIndex) -> (r: NodeIndex)
        requires
            self.wf(),
            x < self.len(),
        ensures
            r == self.chain_of(x as int).last(),
            r < self.len(),
            self.parent_of(r as int) is None,
            self.in_subtree(x as int, r as int),
    {
        let ghost chain = self.chain_of(x as int);
        let mut root = x;
        let ghost mut i: int = 0;
        loop
            invariant
                self.wf(),
                x < self.len(),
                chain == self.chain_of(x as int),
                0 <= i < chain.len(),
                root == chain[i],
            decreases chain.len() - i,
        {
            proof {
                self.lemma_chain_parents(x as int, i);
            }
            match self.parent[root] {
                None => {
                    proof {
                        assert(i == chain.len() - 1);
                        self.lemma_chain_in_subtree(x as int, root);
                    }
                    return root;
                },
                Some(q) => {
                    root = q;
                    proof {
                        i = i + 1;
                    }
                },
            }
        }
    }

    /// Whether `y` is `x` or below it, found by walking up from `y`.
    pub fn is_in_subtree(&self, y: NodeIndex, x: NodeIndex) -> (r: bool)
        requires
            self.wf(),
            y < self.len(),
        ensures
            r == self.in_subtree(y as int, x as int),
    {
        let ghost chain = self.chain_of(y as int);
        let mut cur = y;
        let ghost mut i: int = 0;
        proof {
            self.lemma_chain_distinct(y as int);
        }
        loop
            invariant
                self.wf(),
                y < self.len(),
                chain == self.chain_of(y as int),
                0 <= i < chain.len(),
                cur == chain[i],
                forall|k: int| 0 <= k < i ==> chain[k] != x,
            decreases chain.len() - i,
        {
            proof {
                self.lemma_chain_parents(y as int, i);
            }
            if cur == x {
                proof {
                    assert(chain.contains(x));
                    self.lemma_chain_in_subtree(y as int, x);
                }
                return true;
            }
            match self.parent[cur] {
                None => {
                    proof {
                        assert(i == chain.len() - 1);
                        if self.in_subtree(y as int, x as int) {
                            if y == x {
                                assert(chain[0] == x);
                            } else {
                                let k = choose|k: int| 0 <= k < self.ancestors(y as int).len() && self.ancestors(y as int)[k] == x;
                                assert(chain[k + 1] == x);
                            }
                        }
                    }
                    return false;
                },
                Some(q) => {
                    cur = q;
                    proof {
                        i = i + 1;
                    }
                },
            }
        }
    }

    /// All the nodes of the hierarchy below `x`, `x` included, in increasing
    /// order.
    pub fn collect_subtree(&self, x: NodeIndex) -> (r: Vec<NodeIndex>)
        requires
            self.wf(),
            x < self.len(),
        ensures
            forall|y: NodeIndex| r@.contains(y) <==> self.subtree(x as int).contains(y as int),
            forall|i: int, j: int| 0 <= i < j < r@.len() ==> r@[i] < r@[j],
    {
        let n = self.parent.len();
        let mut r: Vec<NodeIndex> = Vec::new();
        let mut y: usize = 0;
        while y < n
            invariant
                self.wf(),
                x < self.len(),
                n == self.len(),
                y <= n,
                forall|z: NodeIndex| r@.contains(z) <==> (z < y && self.subtree(x as int).contains(z as int)),
                forall|i: int, j: int| 0 <= i < j < r@.len() ==> r@[i] < r@[j],
                forall|i: int| 0 <= i < r@.len() ==> r@[i] < y,
            decreases n - y,
        {
            if self.is_in_subtree(y, x) {
                let ghost r0 = r@;
                r.push(y);
                proof {
                    assert forall|z: NodeIndex| r@.contains(z) <==> (z < y + 1 && self.subtree(x as int).contains(z as int)) by {
                        if r@.contains(z) && z != y {
                            let k = choose|k: int| 0 <= k < r@.len() && r@[k] == z;
                            assert(r0[k] == z);
                            assert(r0.contains(z));
                        }
                        if z == y {
                            assert(self.subtree(x as int).contains(y as int));
                        }
                        if z < y && self.subtree(x as int).contains(z as int) {
                            assert(r0.contains(z));
                            let k = choose|k: int| 0 <= k < r0.len() && r0[k] == z;
                            assert(r@[k] == z);
                        }
                        if z == y {
                            assert(r@[r0.len() as int] == y);
                        }
                    }
                }
            }
            y = y + 1;
        }
        r
    }
}

impl SpatialHierarchy {
    /// The sub-hierarchy of a child is strictly smaller than its parent's.
    pub proof fn lemma_child_subtree_smaller(&self, x: NodeIndex, c: NodeIndex)
        requires
            self.wf(),
            x < self.len(),
            c < self.len(),
            self.parent_of(c as int) == Some(x),
        ensures
            self.subtree(c as int).subset_of(self.subtree(x as int)),
            self.subtree(c as int).len() < self.subtree(x as int).len(),
    {
        assert(self.node_ok(c as int));
        assert(self.ancestors(c as int) == seq![x] + self.ancestors(x as int));
        assert(self.ancestors(c as int)[0] == x);
        assert(self.ancestors(c as int).contains(x));
        assert forall|y: int| self.subtree(c as int).contains(y) implies self.subtree(x as int).contains(y) by {
            if y != c {
                self.lemma_ancestors_transitive(y, c, x);
            }
        }
        assert(!self.subtree(c as int).contains(x as int)) by {
            self.lemma_ancestors_acyclic(c as int);
            if self.ancestors(x as int).contains(c) {
                self.lemma_ancestors_transitive(c as int, x, c);
            }
        }
        self.lemma_subtree_finite(x as int);
        assert(self.subtree(x as int).contains(x as int));
        vstd::set_lib::lemma_len_subset(self.subtree(c as int), self.subtree(x as int).remove(x as int));
    }
}

impl SpatialHierarchy {
    /// Running stage `s` on the sub-hierarchy of `x` gets to node `y`: `y` is
    /// `x`, or lies below it, and `y` and every node between them has a node
    /// that runs in the stage in its sub-hierarchy.
    pub open spec fn reaches_in_stage(&self, x: int, y: int, s: int) -> bool {
        ||| y == x
        ||| exists|i: int| 0 <= i < self.ancestors(y).len() && #[trigger] self.ancestors(y)[i] == x
            && self.stage_count_of(y, s) > 0
            && forall|k: int| 0 <= k < i ==> self.stage_count_of(#[trigger] self.ancestors(y)[k] as int, s) > 0
    }

    /// `y` is `x` or reached through one of the first `k` nodes of `cs` that
    /// have a node that runs in stage `s` below them.
    pub open spec fn reaches_through(&self, x: int, cs: Seq<NodeIndex>, k: int, y: int, s: int) -> bool {
        ||| y == x
        ||| exists|m: int| 0 <= m < k && self.stage_count_of(cs[m] as int, s) > 0
            && #[trigger] self.reaches_in_stage(cs[m] as int, y, s)
    }

    /// What a child with nodes running in the stage reaches, its parent
    /// reaches, and it is not the parent.
    pub proof fn lemma_reaches_child(&self, x: NodeIndex, c: NodeIndex, y: int, s: int)
        requires
            self.wf(),
            x < self.len(),
            c < self.len(),
            0 <= y < self.len(),
            self.parent_of(c as int) == Some(x),
            self.stage_count_of(c as int, s) > 0,
            self.reaches_in_stage(c as int, y, s),
        ensures
            self.reaches_in_stage(x as int, y, s),
            y != x,
    {
        assert(self.node_ok(c as int));
        assert(self.ancestors(c as int) == seq![x] + self.ancestors(x as int));
        assert(self.ancestors(c as int)[0] == x);
        self.lemma_ancestors_acyclic(x as int);
        self.lemma_ancestors_acyclic(c as int);
        if y == c as int {
            assert(self.ancestors(y)[0] == x);
            if y == x as int {
                assert(self.ancestors(c as int).contains(c));
            }
        } else {
            let i = choose|i: int| 0 <= i < self.ancestors(y).len() && #[trigger] self.ancestors(y)[i] == c as int
                && self.stage_count_of(y, s) > 0
                && forall|k: int| 0 <= k < i ==> self.stage_count_of(#[trigger] self.ancestors(y)[k] as int, s) > 0;
            self.lemma_ancestors_suffix(y, i);
            assert(self.ancestors(y)[i + 1] == self.ancestors(c as int)[0]);
            assert forall|k: int| 0 <= k < i + 1 implies self.stage_count_of(#[trigger] self.ancestors(y)[k] as int, s) > 0 by {
                if k == i {
                    assert(self.ancestors(y)[k] == c);
                }
            }
            if y == x as int {
                self.lemma_ancestors_acyclic(y);
                assert(self.ancestors(y).contains(x));
            }
        }
    }

    /// A node other than `x` that `x` reaches is reached by a child of `x`
    /// with nodes running in the stage.
    pub proof fn lemma_reaches_split(&self, x: NodeIndex, y: int, s: int)
        requires
            self.wf(),
            x < self.len(),
            0 <= y < self.len(),
            self.reaches_in_stage(x as int, y, s),
            y != x,
        ensures
            exists|m: int| 0 <= m < self.children_of(x as int).len()
                && self.stage_count_of(self.children_of(x as int)[m] as int, s) > 0
                && #[trigger] self.reaches_in_stage(self.children_of(x as int)[m] as int, y, s),
    {
        let i = choose|i: int| 0 <= i < self.ancestors(y).len() && #[trigger] self.ancestors(y)[i] == x as int
            && self.stage_count_of(y, s) > 0
            && forall|k: int| 0 <= k < i ==> self.stage_count_of(#[trigger] self.ancestors(y)[k] as int, s) > 0;
        assert(self.node_ok(y));
        assert(self.node_ok(x as int));
        let c: NodeIndex = if i == 0 { y as NodeIndex } else { self.ancestors(y)[i - 1] };
        if i == 0 {
            assert(self.parent_of(y) == Some(x));
        } else {
            self.lemma_ancestors_suffix(y, i - 1);
            assert(self.node_ok(c as int));
            assert(self.ancestors(c as int)[0] == x);
            assert(self.parent_of(c as int) == Some(x));
            assert(self.stage_count_of(self.ancestors(y)[i - 1] as int, s) > 0);
            assert(self.ancestors(y)[i - 1] == c);
            assert forall|k: int| 0 <= k < i - 1 implies self.stage_count_of(#[trigger] self.ancestors(y)[k] as int, s) > 0 by {
                assert(self.stage_count_of(self.ancestors(y)[k] as int, s) > 0);
            }
            assert(self.reaches_in_stage(c as int, y, s));
        }
        assert(0 <= c < self.len());
        assert(self.parent_of(c as int) == Some(x));
        assert(self.children_of(x as int).contains((c as int) as NodeIndex));
        let m = choose|m: int| 0 <= m < self.children_of(x as int).len() && self.children_of(x as int)[m] == c;
        assert(self.reaches_in_stage(self.children_of(x as int)[m] as int, y, s));
    }

    /// Two children of one node never reach the same node.
    pub proof fn lemma_reaches_unique(&self, x: NodeIndex, c1: NodeIndex, c2: NodeIndex, y: int, s: int)
        requires
            self.wf(),
            x < self.len(),
            c1 < self.len(),
            c2 < self.len(),
            0 <= y < self.len(),
            self.parent_of(c1 as int) == Some(x),
            self.parent_of(c2 as int) == Some(x),
            self.reaches_in_stage(c1 as int, y, s),
            self.reaches_in_stage(c2 as int, y, s),
        ensures
            c1 == c2,
    {
        assert(self.in_subtree(y, c1 as int));
        assert(self.in_subtree(y, c2 as int));
        self.lemma_sibling_subtrees_disjoint(x, c1, c2, y);
    }

    /// Two children of one node share no node of their sub-hierarchies.
    pub proof fn lemma_sibling_subtrees_disjoint(&self, x: NodeIndex, c1: NodeIndex, c2: NodeIndex, y: int)
        requires
            self.wf(),
            x < self.len(),
            c1 < self.len(),
            c2 < self.len(),
            0 <= y < self.len(),
            self.parent_of(c1 as int) == Some(x),
            self.parent_of(c2 as int) == Some(x),
            self.in_subtree(y, c1 as int),
            self.in_subtree(y, c2 as int),
        ensures
            c1 == c2,
    {
        assert(self.node_ok(c1 as int));
        assert(self.node_ok(c2 as int));
        assert(self.ancestors(c1 as int) == seq![x] + self.ancestors(x as int));
        assert(self.ancestors(c2 as int) == seq![x] + self.ancestors(x as int));
        self.lemma_common_descendant(y, c1, c2);
        self.lemma_ancestors_acyclic(x as int);
        self.lemma_ancestors_acyclic(c1 as int);
        self.lemma_ancestors_acyclic(c2 as int);
        if c1 != c2 {
            if self.ancestors(c1 as int).contains(c2) {
                if c2 == x {
                    assert(self.ancestors(c2 as int)[0] == x);
                } else {
                    let k = choose|k: int| 0 <= k < self.ancestors(c1 as int).len() && self.ancestors(c1 as int)[k] == c2;
                    assert(self.ancestors(x as int)[k - 1] == c2);
                    assert(self.ancestors(c2 as int)[0] == x);
                    self.lemma_ancestors_transitive(x as int, c2, x);
                }
            } else {
                if c1 == x {
                    assert(self.ancestors(c1 as int)[0] == x);
                } else {
                    let k = choose|k: int| 0 <= k < self.ancestors(c2 as int).len() && self.ancestors(c2 as int)[k] == c1;
                    assert(self.ancestors(x as int)[k - 1] == c1);
                    assert(self.ancestors(c1 as int)[0] == x);
                    self.lemma_ancestors_transitive(x as int, c1, x);
                }
            }
        }
    }
}

} // verus!
