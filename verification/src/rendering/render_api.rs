//! Graphics APIs a render backend can implement.
use vstd::prelude::*;

verus! {

#[derive(Debug, Clone, Copy, PartialEq, Eq, Structural)]
pub enum API {
    OpenGL,
    Vulkan,
    NoApi,
}

} // verus!
