//! Release 0.2.16, which follows 0.2.15 and changes nothing in the state.

use vstd::prelude::*;
use crate::descriptor::VersionDescriptor;
use crate::step::{NoCause, Transform, VersionStep};

verus! {

/// The release 0.2.16.
pub struct Version;

impl Version {
    /// The release.
    pub fn new() -> (release: Self) {
        Version
    }

    /// The version of this release.
    pub fn semver(&self) -> (v: VersionDescriptor)
        ensures
            v == (VersionDescriptor { major: 0, minor: 2, patch: 16, build: 0 }),
    {
        VersionDescriptor::new(0, 2, 16, 0)
    }

    /// The version of the release that this one follows.
    pub fn previous(&self) -> (v: VersionDescriptor)
        ensures
            v == (VersionDescriptor { major: 0, minor: 2, patch: 15, build: 0 }),
    {
        VersionDescriptor::new(0, 2, 15, 0)
    }

    /// The step that this release contributes to a chain.
    pub fn step(self) -> (step: VersionStep<Version>)
        ensures
            step.version == (VersionDescriptor { major: 0, minor: 2, patch: 16, build: 0 }),
            step.predecessor == Some(
                VersionDescriptor { major: 0, minor: 2, patch: 15, build: 0 },
            ),
            step.transform == self,
    {
        let version: VersionDescriptor = self.semver();
        let predecessor: VersionDescriptor = self.previous();
        VersionStep::after(predecessor, version, self)
    }
}

impl<S> Transform<S> for Version {
    type Cause = NoCause;

    /// Going up succeeds and leaves the state as it was.
    open spec fn up_effect(&self, before: S, after: S, outcome: Result<(), NoCause>) -> bool {
        outcome is Ok && after == before
    }

    /// Going down succeeds and leaves the state as it was.
    open spec fn down_effect(&self, before: S, after: S, outcome: Result<(), NoCause>) -> bool {
        outcome is Ok && after == before
    }

    fn up(&self, state: &mut S) -> (outcome: Result<(), NoCause>)
        ensures
            outcome is Ok,
            *final(state) == *old(state),
    {
        Ok(())
    }

    fn down(&self, state: &mut S) -> (outcome: Result<(), NoCause>)
        ensures
            outcome is Ok,
            *final(state) == *old(state),
    {
        Ok(())
    }
}

} // verus!
