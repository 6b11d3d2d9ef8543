//! Per-stage tables of an entity: which stages have local systems to run, and
//! which systems run in each stage.
//!
//! The flags are kept in a `bitvec::array::BitArray` and the per-stage lists in
//! a `vector_map::VecMap`, each held in a private field of a struct of this
//! module whose body is hidden from the proofs; the contents are named by
//! `stage_flags` and `stage_lists`, and every method the library calls has a
//! trusted wrapper whose contract follows the crate's source.
use crate::local_systems::{StageID, SystemClassID};
use bitvec::array::BitArray;
use bitvec::order::Lsb0;
use vector_map::VecMap;
use vstd::prelude::*;

verus! {

/// One flag per stage.
#[verifier::external_body]
pub struct StageEnabledMap {
    bits: BitArray<[u64; 4], Lsb0>,
}

/// The flag of each of the 256 stages.
pub uninterp spec fn stage_flags(m: StageEnabledMap) -> Seq<bool>;

/// Calls `BitArray::ZERO`: 256 cleared flags.
#[verifier::external_body]
pub(crate) fn stage_flags_zero() -> (m: StageEnabledMap)
    ensures
        stage_flags(m) == Seq::new(256, |i: int| false),
{
    StageEnabledMap { bits: BitArray::ZERO }
}

/// Reads flag `i` (`BitArray` indexing, which panics out of bounds).
#[verifier::external_body]
pub(crate) fn stage_flag(m: &StageEnabledMap, i: usize) -> (r: bool)
    requires
        i < 256,
        stage_flags(*m).len() == 256,
    ensures
        r == stage_flags(*m)[i as int],
{
    m.bits[i]
}

/// Calls `BitSlice::set`, which panics out of bounds: flag `i` becomes `v`.
#[verifier::external_body]
pub(crate) fn set_stage_flag(m: &mut StageEnabledMap, i: usize, v: bool)
    requires
        i < 256,
        stage_flags(*old(m)).len() == 256,
    ensures
        stage_flags(*final(m)) == stage_flags(*old(m)).update(i as int, v),
{
    m.bits.set(i, v)
}

/// For each stage that has systems to run, the systems in running order, each
/// with the number of datagroup indices it takes.
#[verifier::external_body]
pub struct StageMap {
    map: VecMap<StageID, Vec<(u16, SystemClassID)>>,
}

/// Lists of systems by stage.
pub type StageLists = Map<StageID, Seq<(u16, SystemClassID)>>;

/// The list of each stage in the map.
pub uninterp spec fn stage_lists(m: StageMap) -> Map<StageID, Seq<(u16, SystemClassID)>>;

/// Calls `VecMap::new`: no stage.
#[verifier::external_body]
pub(crate) fn stage_map_new() -> (m: StageMap)
    ensures
        stage_lists(m) == StageLists::empty(),
{
    StageMap { map: VecMap::new() }
}

/// Calls `VecMap::insert` for a stage that is not in the map yet: the stage
/// gets an empty list.
#[verifier::external_body]
pub(crate) fn stage_map_add_stage(m: &mut StageMap, stage: StageID)
    requires
        !stage_lists(*old(m)).contains_key(stage),
    ensures
        stage_lists(*final(m)) == stage_lists(*old(m)).insert(stage, Seq::empty()),
{
    m.map.insert(stage, Vec::new());
}

/// Calls `VecMap::get_mut` on a stage of the map: the list of that stage.
#[verifier::external_body]
pub(crate) fn stage_map_list_mut(m: &mut StageMap, stage: StageID) -> (r: &mut Vec<(u16, SystemClassID)>)
    requires
        stage_lists(*old(m)).contains_key(stage),
    ensures
        r@ == stage_lists(*old(m))[stage],
        stage_lists(*final(m)) == stage_lists(*old(m)).insert(stage, final(r)@),
{
    m.map.get_mut(&stage).unwrap()
}

/// Calls `VecMap::get`: the list of a stage, if the stage is in the map.
#[verifier::external_body]
pub(crate) fn stage_map_get(m: &StageMap, stage: StageID) -> (r: Option<&Vec<(u16, SystemClassID)>>)
    ensures
        match r {
            Some(v) => stage_lists(*m).contains_key(stage) && v@ == stage_lists(*m)[stage],
            None => !stage_lists(*m).contains_key(stage),
        },
{
    m.map.get(&stage)
}

} // verus!
