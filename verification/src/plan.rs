//! Plans: the transforms that lead from one release to another, in order.

use vstd::prelude::*;
use crate::descriptor::VersionDescriptor;
use crate::error::ChainError;
use crate::registry::{ascending, holds, index_of};
use crate::step::{Direction, VersionStep};

verus! {

/// One entry of a plan: a step of the registry and the way to apply it.
pub struct PlannedStep<'a, T> {
    pub step: &'a VersionStep<T>,
    pub direction: Direction,
}

impl<'a, T> PlannedStep<'a, T> {
    /// The entry as a plain pair.
    pub open spec fn pair(self) -> (VersionStep<T>, Direction) {
        (*self.step, self.direction)
    }
}

/// The entries of `steps` as plain pairs.
pub open spec fn pairs<'a, T>(steps: Seq<PlannedStep<'a, T>>) -> Seq<(VersionStep<T>, Direction)> {
    Seq::new(steps.len(), |k: int| steps[k].pair())
}

/// The ordered transforms that take state shaped for `start` to state shaped
/// for `target`.
///
/// The view of a plan is the sequence of its entries as pairs of a step and a
/// direction.
pub struct MigrationPlan<'a, T> {
    pub start: VersionDescriptor,
    pub target: VersionDescriptor,
    pub steps: Vec<PlannedStep<'a, T>>,
}

impl<'a, T> View for MigrationPlan<'a, T> {
    type V = Seq<(VersionStep<T>, Direction)>;

    open spec fn view(&self) -> Seq<(VersionStep<T>, Direction)> {
        pairs(self.steps@)
    }
}

impl<'a, T> MigrationPlan<'a, T> {
    /// The number of entries.
    pub fn len(&self) -> (n: usize)
        ensures
            n == self@.len(),
    {
        self.steps.len()
    }

    /// Whether the plan has nothing to apply.
    pub fn is_empty(&self) -> (b: bool)
        ensures
            b == (self@.len() == 0),
    {
        self.steps.len() == 0
    }
}

/// The way up from place `i` to a higher place `j`: the steps after `i`, up to
/// and including `j`, lowest first, each applied forward.
pub open spec fn ascent<T>(s: Seq<VersionStep<T>>, i: int, j: int) -> Seq<
    (VersionStep<T>, Direction),
> {
    Seq::new((j - i) as nat, |k: int| (s[i + 1 + k], Direction::Up))
}

/// The way down from place `i` to a lower place `j`: the steps after `j`, up
/// to and including `i`, highest first, each applied backward.
pub open spec fn descent<T>(s: Seq<VersionStep<T>>, i: int, j: int) -> Seq<
    (VersionStep<T>, Direction),
> {
    Seq::new((i - j) as nat, |k: int| (s[i - k], Direction::Down))
}

/// The plan from `current` to `target` over the chain `s`.
///
/// From a version to itself nothing is to be done, whether the chain holds it
/// or not. Otherwise both versions must be in the chain, `current` being
/// looked for first. The way leads up where `current` precedes `target`, and
/// down where `target` precedes `current`.
pub open spec fn route<T>(
    s: Seq<VersionStep<T>>,
    current: VersionDescriptor,
    target: VersionDescriptor,
) -> Result<Seq<(VersionStep<T>, Direction)>, ChainError> {
    if current == target {
        Ok(Seq::empty())
    } else if !holds(s, current) {
        Err(ChainError::UnknownVersion { version: current })
    } else if !holds(s, target) {
        Err(ChainError::UnknownVersion { version: target })
    } else if current.precedes(target) {
        Ok(ascent(s, index_of(s, current), index_of(s, target)))
    } else {
        Ok(descent(s, index_of(s, current), index_of(s, target)))
    }
}

/// A plan read backwards, with every direction turned round.
pub open spec fn reversal<T>(p: Seq<(VersionStep<T>, Direction)>) -> Seq<
    (VersionStep<T>, Direction),
> {
    Seq::new(p.len(), |k: int| (p[p.len() - 1 - k].0, p[p.len() - 1 - k].1.flipped()))
}

/// In an ascending sequence the places are ordered as the versions are.
pub proof fn lemma_places_follow_versions<T>(s: Seq<VersionStep<T>>, i: int, j: int)
    requires
        ascending(s),
        0 <= i < s.len(),
        0 <= j < s.len(),
    ensures
        i < j <==> s[i].version.precedes(s[j].version),
        i == j <==> s[i].version == s[j].version,
{
    if i < j {
        assert(s[i].version.precedes(s[j].version));
    } else if j < i {
        assert(s[j].version.precedes(s[i].version));
    }
}

} // verus!
