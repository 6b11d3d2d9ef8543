//! A readable description of an entity: its local systems with the
//! datagroups they take, the stages it runs in and, for each of them, the
//! local systems that run there.
use crate::data_group::{DataGroupMeta, DataGroupRegistry, DataGroupRegistryEntry};
use crate::entity::{dg_ids, sorted_elements, sorted_system_ids, Entity, EntityID};
use crate::local_systems::{
    dependency_id, Dependency, LocalSystemRegistry, LocalSystemRegistryEntry, StageID,
    SystemClassID, STAGE_COUNT,
};
use vstd::prelude::*;

verus! {

/// What a local system of an entity receives for one of its dependencies.
#[derive(Clone, Copy, Debug)]
pub enum ArgDescription {
    /// The entity has the datagroup, named here.
    Present(&'static str),
    /// A required datagroup, named here, that the entity lacks.
    Missing(&'static str),
    /// An optional datagroup that the entity lacks.
    Absent,
}

/// A local system, by identifier and name.
#[derive(Clone, Copy, Debug)]
pub struct SystemRef {
    pub id: SystemClassID,
    pub name: &'static str,
}

/// A local system of an entity and what it receives for each dependency.
#[derive(Debug)]
pub struct SystemDescription {
    pub id: SystemClassID,
    pub name: &'static str,
    pub args: Vec<ArgDescription>,
}

/// An enabled stage and the local systems that run in it.
#[derive(Debug)]
pub struct StageDescription {
    pub stage: StageID,
    pub local_systems: Vec<SystemRef>,
}

/// The description of an entity.
#[derive(Debug)]
pub struct EntityDescription {
    pub id: EntityID,
    pub name: String,
    pub debug_info: String,
    /// The local systems, in increasing identifier order.
    pub local_systems: Vec<SystemDescription>,
    /// The enabled stages, in increasing order.
    pub ls_stage_enabled_map: Vec<StageID>,
    /// One entry per enabled stage, in the same order.
    pub stages: Vec<StageDescription>,
}

/// What a system receives for dependency `dep`, given whether the entity
/// has its datagroup.
pub open spec fn arg_of<F>(dep: Dependency, has: bool, dgs: Seq<DataGroupRegistryEntry<F>>) -> ArgDescription {
    let name = dgs[dependency_id(dep) as int].name;
    match dep {
        Dependency::DataGroup(_) => if has {
            ArgDescription::Present(name)
        } else {
            ArgDescription::Missing(name)
        },
        Dependency::OptionalDG(_) => if has {
            ArgDescription::Present(name)
        } else {
            ArgDescription::Absent
        },
    }
}

/// The systems `sys`, each with its registered name.
pub open spec fn system_refs<F, S>(sys: Seq<SystemClassID>, ls: Seq<LocalSystemRegistryEntry<F, S>>) -> Seq<SystemRef> {
    Seq::new(sys.len(), |i: int| SystemRef { id: sys[i], name: ls[sys[i] as int].name })
}

/// The system has a function for stage `st`.
pub open spec fn runs_in<F, S>(ls: Seq<LocalSystemRegistryEntry<F, S>>, st: StageID) -> spec_fn(SystemRef) -> bool {
    |r: SystemRef| ls[r.id as int].functions@[st as int] is Some
}

/// The stages whose flag is set, in increasing order.
pub open spec fn enabled_stages(flags: Seq<bool>) -> Seq<StageID> {
    Seq::new(STAGE_COUNT as nat, |i: int| i as StageID).filter(|s: StageID| flags[s as int])
}

/// The identifiers of a list of system descriptions.
pub open spec fn description_ids(v: Seq<SystemDescription>) -> Seq<SystemClassID> {
    v.map_values(|s: SystemDescription| s.id)
}

/// The description owed for entity `e`.
pub open spec fn describes<D: DataGroupMeta, F, G, S>(
    d: EntityDescription,
    e: Entity<D>,
    dgs: Seq<DataGroupRegistryEntry<F>>,
    ls: Seq<LocalSystemRegistryEntry<G, S>>,
) -> bool {
    let sys = description_ids(d.local_systems@);
    let enabled = enabled_stages(e.spec_stage_flags());
    &&& d.id == e.spec_id()
    &&& d.name@ == e.spec_name()
    &&& d.debug_info@ == e.spec_debug_info()
    &&& sorted_elements(e.spec_local_systems(), sys)
    &&& forall|i: int| 0 <= i < sys.len() ==> {
        let s = #[trigger] d.local_systems@[i];
        let deps = ls[s.id as int].dependencies@;
        &&& s.name == ls[s.id as int].name
        &&& s.args@.len() == deps.len()
        &&& forall|j: int| 0 <= j < deps.len() ==> #[trigger] s.args@[j] == arg_of(
            deps[j],
            dg_ids(e.spec_datagroups()).contains(dependency_id(deps[j])),
            dgs,
        )
    }
    &&& d.ls_stage_enabled_map@ == enabled
    &&& d.stages@.len() == enabled.len()
    &&& forall|k: int| 0 <= k < enabled.len() ==> {
        &&& (#[trigger] d.stages@[k]).stage == enabled[k]
        &&& d.stages@[k].local_systems@ == system_refs(sys, ls).filter(runs_in(ls, enabled[k]))
    }
}

/// The arguments of one system: for each dependency, the datagroup's name and
/// whether the entity has it.
fn describe_args<D: DataGroupMeta, F>(
    e: &Entity<D>,
    deps: &Vec<Dependency>,
    dg_registry: &DataGroupRegistry<F>,
) -> (r: Vec<ArgDescription>)
    requires
        e.wf(),
        forall|j: int| 0 <= j < deps@.len() ==> dependency_id(#[trigger] deps@[j]) < dg_registry@.len(),
    ensures
        r@.len() == deps@.len(),
        forall|j: int| 0 <= j < deps@.len() ==> #[trigger] r@[j] == arg_of(
            deps@[j],
            dg_ids(e.spec_datagroups()).contains(dependency_id(deps@[j])),
            dg_registry@,
        ),
{
    let mut r: Vec<ArgDescription> = Vec::new();
    let mut j: usize = 0;
    while j < deps.len()
        invariant
            e.wf(),
            j <= deps@.len(),
            r@.len() == j,
            forall|j: int| 0 <= j < deps@.len() ==> dependency_id(#[trigger] deps@[j]) < dg_registry@.len(),
            forall|i: int| 0 <= i < j ==> #[trigger] r@[i] == arg_of(
                deps@[i],
                dg_ids(e.spec_datagroups()).contains(dependency_id(deps@[i])),
                dg_registry@,
            ),
        decreases deps@.len() - j,
    {
        let dep = deps[j];
        let g = dep.unwrap();
        let entry = dg_registry.get_entry_by_id(g);
        let has = match e.get_datagroup_by_id(g) {
            Some(_) => true,
            None => false,
        };
        let a = match dep {
            Dependency::DataGroup(_) => if has {
                ArgDescription::Present(entry.name)
            } else {
                ArgDescription::Missing(entry.name)
            },
            Dependency::OptionalDG(_) => if has {
                ArgDescription::Present(entry.name)
            } else {
                ArgDescription::Absent
            },
        };
        r.push(a);
        j = j + 1;
    }
    r
}

impl<D: DataGroupMeta> Entity<D> {
    /// Describe this entity: its identifier, name and debug information; its
    /// local systems in increasing identifier order, each with its registered
    /// name and, for each dependency, the datagroup's name and whether the
    /// entity has it; the stages it runs in, in increasing order; and for each
    /// of these stages the local systems with a function there, in the same
    /// order.
    pub fn describe<F, G, S>(
        &self,
        dg_registry: &DataGroupRegistry<F>,
        ls_registry: &LocalSystemRegistry<G, S>,
    ) -> (d: EntityDescription)
        requires
            self.wf(),
            forall|l: SystemClassID| #[trigger] self.spec_local_systems().contains(l) ==> {
                &&& l < ls_registry@.len()
                &&& forall|j: int| 0 <= j < ls_registry@[l as int].dependencies@.len()
                    ==> dependency_id(#[trigger] ls_registry@[l as int].dependencies@[j]) < dg_registry@.len()
            },
        ensures
            describes(d, *self, dg_registry@, ls_registry@),
    {
        let sys = sorted_system_ids(self.get_local_systems());
        let mut systems: Vec<SystemDescription> = Vec::new();
        let mut refs: Vec<SystemRef> = Vec::new();
        let mut i: usize = 0;
        while i < sys.len()
            invariant
                self.wf(),
                i <= sys@.len(),
                systems@.len() == i,
                refs@.len() == i,
                forall|y: SystemClassID| sys@.contains(y) <==> self.spec_local_systems().contains(y),
                forall|l: SystemClassID| #[trigger] self.spec_local_systems().contains(l) ==> {
                    &&& l < ls_registry@.len()
                    &&& forall|j: int| 0 <= j < ls_registry@[l as int].dependencies@.len()
                        ==> dependency_id(#[trigger] ls_registry@[l as int].dependencies@[j]) < dg_registry@.len()
                },
                forall|k: int| 0 <= k < i ==> {
                    let s = #[trigger] systems@[k];
                    let deps = ls_registry@[s.id as int].dependencies@;
                    &&& s.id == sys@[k]
                    &&& s.name == ls_registry@[s.id as int].name
                    &&& s.args@.len() == deps.len()
                    &&& forall|j: int| 0 <= j < deps.len() ==> #[trigger] s.args@[j] == arg_of(
                        deps[j],
                        dg_ids(self.spec_datagroups()).contains(dependency_id(deps[j])),
                        dg_registry@,
                    )
                },
                forall|k: int| 0 <= k < i ==> #[trigger] refs@[k] == (SystemRef { id: sys@[k], name: ls_registry@[sys@[k] as int].name }),
            decreases sys@.len() - i,
        {
            let l = sys[i];
            proof {
                assert(sys@.contains(l));
            }
            let entry = ls_registry.get_entry_by_id(l);
            let args = describe_args(self, &entry.dependencies, dg_registry);
            systems.push(SystemDescription { id: l, name: entry.name, args });
            refs.push(SystemRef { id: l, name: entry.name });
            i = i + 1;
        }
        proof {
            assert(description_ids(systems@) =~= sys@);
            assert(refs@ =~= system_refs(sys@, ls_registry@));
            assert forall|k: int| 0 <= k < refs@.len() implies (#[trigger] refs@[k]).id < ls_registry@.len() by {
                assert(sys@.contains(sys@[k]));
            }
        }
        let ghost flags = self.spec_stage_flags();
        let ghost all = Seq::new(STAGE_COUNT as nat, |i: int| i as StageID);
        let ghost on = |s: StageID| flags[s as int];
        let mut enabled: Vec<StageID> = Vec::new();
        let mut stages: Vec<StageDescription> = Vec::new();
        let mut s: usize = 0;
        proof {
            assert(all.take(0) =~= Seq::<StageID>::empty());
            assert(Seq::<StageID>::empty().filter(on) =~= Seq::<StageID>::empty());
        }
        while s < STAGE_COUNT
            invariant
                self.wf(),
                s <= STAGE_COUNT,
                flags == self.spec_stage_flags(),
                all == Seq::new(STAGE_COUNT as nat, |i: int| i as StageID),
                on == (|s: StageID| flags[s as int]),
                enabled@ == all.take(s as int).filter(on),
                stages@.len() == enabled@.len(),
                forall|k: int| 0 <= k < refs@.len() ==> (#[trigger] refs@[k]).id < ls_registry@.len(),
                forall|k: int| 0 <= k < enabled@.len() ==> {
                    &&& (#[trigger] stages@[k]).stage == enabled@[k]
                    &&& stages@[k].local_systems@ == refs@.filter(runs_in(ls_registry@, enabled@[k]))
                },
            decreases STAGE_COUNT - s,
        {
            let st = s as StageID;
            proof {
                reveal_with_fuel(Seq::filter, 1);
                assert(all.take(s + 1).drop_last() =~= all.take(s as int));
                assert(all.take(s + 1).last() == st);
            }
            if self.is_stage_enabled(st) {
                let list = self.systems_in_stage(&refs, st, ls_registry);
                enabled.push(st);
                stages.push(StageDescription { stage: st, local_systems: list });
            }
            s = s + 1;
        }
        proof {
            assert(all.take(STAGE_COUNT as int) =~= all);
        }
        EntityDescription {
            id: self.get_id(),
            name: self.get_name().to_owned(),
            debug_info: self.get_debug_info().to_owned(),
            local_systems: systems,
            ls_stage_enabled_map: enabled,
            stages,
        }
    }

    /// The systems of `refs` that have a function for stage `st`, in order.
    fn systems_in_stage<G, S>(
        &self,
        refs: &Vec<SystemRef>,
        st: StageID,
        ls_registry: &LocalSystemRegistry<G, S>,
    ) -> (r: Vec<SystemRef>)
        requires
            forall|k: int| 0 <= k < refs@.len() ==> (#[trigger] refs@[k]).id < ls_registry@.len(),
        ensures
            r@ == refs@.filter(runs_in(ls_registry@, st)),
    {
        let ghost p = runs_in(ls_registry@, st);
        let mut r: Vec<SystemRef> = Vec::new();
        let mut k: usize = 0;
        proof {
            assert(refs@.take(0) =~= Seq::<SystemRef>::empty());
            assert(Seq::<SystemRef>::empty().filter(p) =~= Seq::<SystemRef>::empty());
        }
        while k < refs.len()
            invariant
                k <= refs@.len(),
                p == runs_in(ls_registry@, st),
                r@ == refs@.take(k as int).filter(p),
                forall|k: int| 0 <= k < refs@.len() ==> (#[trigger] refs@[k]).id < ls_registry@.len(),
            decreases refs@.len() - k,
        {
            let x = refs[k];
            proof {
                reveal_with_fuel(Seq::filter, 1);
                assert(refs@.take(k + 1).drop_last() =~= refs@.take(k as int));
                assert(refs@.take(k + 1).last() == x);
            }
            let entry = ls_registry.get_entry_by_id(x.id);
            if entry.functions[st as usize].is_some() {
                r.push(x);
            }
            k = k + 1;
        }
        proof {
            assert(refs@.take(refs@.len() as int) =~= refs@);
        }
        r
    }
}

} // verus!
