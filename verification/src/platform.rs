//! Platforms the engine can run on.
use vstd::prelude::*;

verus! {

/// Supported platforms
#[derive(Debug, Clone, Copy, PartialEq, Eq, Structural)]
pub enum Platforms {
    NoPlatform,
    Windows,
}

} // verus!
