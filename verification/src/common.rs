//! Definitions shared by datagroups and systems.
use vstd::prelude::*;

verus! {

/// Whether something has an init function.
/// If it has one, it can specify if it doesn't take an argument,
/// if the argument is required, or if the argument is optional.
#[derive(Debug, Clone, Copy, PartialEq, Eq, Structural)]
pub enum InitDesc {
    /// without init
    NoInit,
    /// with init but no args
    NoArg,
    /// with init and args
    Arg,
    /// with init and optional args
    OptionalArg,
}

} // verus!
