//! Scene descriptions handed to the renderer.
use vstd::prelude::*;

verus! {

#[derive(Debug, Default)]
pub struct SceneDescription {}

#[derive(Debug, Default)]
pub struct SceneData {}

/// Kinds of assets managed by the renderer.
#[derive(Debug, Clone, Copy, PartialEq, Eq, Structural)]
pub enum AssetType {
    Shader,
    Material,
    Model,
}

} // verus!
