//! One release's contribution to the chain.

use vstd::prelude::*;
use crate::descriptor::VersionDescriptor;

verus! {

/// The way a transform is applied: forward to a release, or back from it.
#[derive(Clone, Copy, Debug, PartialEq, Eq, Structural)]
pub enum Direction {
    Up,
    Down,
}

impl Direction {
    /// The opposite direction.
    pub open spec fn flipped(self) -> Direction {
        match self {
            Direction::Up => Direction::Down,
            Direction::Down => Direction::Up,
        }
    }

    /// Turns the direction round.
    pub fn reversed(self) -> (d: Direction)
        ensures
            d == self.flipped(),
    {
        match self {
            Direction::Up => Direction::Down,
            Direction::Down => Direction::Up,
        }
    }
}

/// The pair of operations that a release brings.
///
/// `up` takes state shaped for the release's predecessor to state shaped for
/// the release; `down` takes it back. Either may fail with a `Cause`.
///
/// What they do to the state is theirs alone. An implementation says what may
/// be relied on through `up_effect` and `down_effect`: each relates the state
/// before a call, the state after it, and the outcome. Left as they are,
/// they hold of every call and promise nothing.
pub trait Transform<S> {
    type Cause;

    /// `up`, called on `before`, may leave `after` and return `outcome`.
    open spec fn up_effect(&self, before: S, after: S, outcome: Result<(), Self::Cause>) -> bool {
        true
    }

    /// `down`, called on `before`, may leave `after` and return `outcome`.
    open spec fn down_effect(&self, before: S, after: S, outcome: Result<(), Self::Cause>) -> bool {
        true
    }

    fn up(&self, state: &mut S) -> (outcome: Result<(), Self::Cause>)
        ensures
            self.up_effect(*old(state), *final(state), outcome),
    ;

    fn down(&self, state: &mut S) -> (outcome: Result<(), Self::Cause>)
        ensures
            self.down_effect(*old(state), *final(state), outcome),
    ;
}

/// The cause of failure of a transform that never fails.
#[derive(Clone, Copy, Debug, PartialEq, Eq, Structural)]
pub struct NoCause;

/// One release: its identity, the identity of the release it follows, and its
/// transform pair.
///
/// The predecessor is named by value. A step holds no other step.
pub struct VersionStep<T> {
    pub version: VersionDescriptor,
    pub predecessor: Option<VersionDescriptor>,
    pub transform: T,
}

impl<T> VersionStep<T> {
    /// The step of the first release, which follows nothing.
    pub fn root(version: VersionDescriptor, transform: T) -> (step: Self)
        ensures
            step.version == version,
            step.predecessor == None::<VersionDescriptor>,
            step.transform == transform,
    {
        VersionStep { version, predecessor: None, transform }
    }

    /// The step of a release that follows `predecessor`.
    pub fn after(predecessor: VersionDescriptor, version: VersionDescriptor, transform: T) -> (step:
        Self)
        ensures
            step.version == version,
            step.predecessor == Some(predecessor),
            step.transform == transform,
    {
        VersionStep { version, predecessor: Some(predecessor), transform }
    }
}

} // verus!
