//! What can go wrong while a chain is built or queried.

use vstd::prelude::*;
use crate::descriptor::VersionDescriptor;

verus! {

/// The properties that the steps of a registry must have to form a chain.
#[derive(Clone, Copy, Debug, PartialEq, Eq, Structural)]
pub enum ChainInvariant {
    /// Exactly one step follows nothing.
    SingleRoot,
    /// Every predecessor that a step names is registered.
    KnownPredecessor,
    /// From every step, following predecessors ends at the root.
    ReachesRoot,
    /// Every step follows the next lower version of the registry.
    AscendingLinks,
}

/// Why a registry, a query or a plan could not be had.
#[derive(Clone, Copy, Debug, PartialEq, Eq, Structural)]
pub enum ChainError {
    /// A step with this version was registered before.
    DuplicateVersion { version: VersionDescriptor },
    /// The steps do not form one chain: `offender` is the lowest version that
    /// breaks `invariant`.
    BrokenChain { invariant: ChainInvariant, offender: VersionDescriptor },
    /// The registry holds no step.
    EmptyChain,
    /// No step with this version is registered.
    UnknownVersion { version: VersionDescriptor },
}

} // verus!
