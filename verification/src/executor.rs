//! Applying a plan: one transform after the other, until one fails.

use vstd::prelude::*;
use crate::descriptor::VersionDescriptor;
use crate::plan::{pairs, MigrationPlan, PlannedStep};
use crate::step::{Direction, Transform, VersionStep};

verus! {

/// A run that stopped at a failing transform.
///
/// `completed` holds the entries of the plan that were applied before it, in
/// the order of the plan. Nothing is rolled back.
pub struct MigrationFailed<'a, T, C> {
    pub failing_version: VersionDescriptor,
    pub direction: Direction,
    pub cause: C,
    pub completed: Vec<PlannedStep<'a, T>>,
}

impl<'a, T, C> MigrationFailed<'a, T, C> {
    /// This failure is what a run of `entries` reports when the transform at
    /// place `done` fails with `cause`.
    pub open spec fn stops(
        self,
        entries: Seq<(VersionStep<T>, Direction)>,
        done: int,
        cause: C,
    ) -> bool {
        &&& 0 <= done < entries.len()
        &&& self.failing_version == entries[done].0.version
        &&& self.direction == entries[done].1
        &&& self.cause == cause
        &&& pairs(self.completed@) == entries.take(done)
    }
}

/// A run with a transform still to apply.
pub struct Pending<'a, T> {
    plan: MigrationPlan<'a, T>,
    done: usize,
}

/// Where a run stands between two transforms.
pub enum Progress<'a, T> {
    /// The next transform is to be applied.
    Pending(Pending<'a, T>),
    /// Every transform was applied: the state is shaped for this version.
    Finished(VersionDescriptor),
}

impl<'a, T> Pending<'a, T> {
    #[verifier::type_invariant]
    spec fn in_range(self) -> bool {
        self.done < self.plan.steps@.len()
    }

    /// The entries of the plan that is run.
    pub closed spec fn entries(self) -> Seq<(VersionStep<T>, Direction)> {
        self.plan@
    }

    /// The version that the plan leads to.
    pub closed spec fn target(self) -> VersionDescriptor {
        self.plan.target
    }

    /// The number of entries applied so far.
    pub closed spec fn done(self) -> int {
        self.done as int
    }

    /// The entry to apply next.
    pub fn step(&self) -> (next: PlannedStep<'a, T>)
        ensures
            0 <= self.done() < self.entries().len(),
            next.pair() == self.entries()[self.done()],
    {
        proof {
            use_type_invariant(self);
        }
        let entry: &PlannedStep<'a, T> = &self.plan.steps[self.done];
        PlannedStep { step: entry.step, direction: entry.direction }
    }

    /// Gives the run up before the pending transform is applied, and hands
    /// back the entries that were applied so far.
    pub fn cancel(self) -> (completed: Vec<PlannedStep<'a, T>>)
        ensures
            0 <= self.done() < self.entries().len(),
            pairs(completed@) == self.entries().take(self.done()),
    {
        proof {
            use_type_invariant(&self);
        }
        let done: usize = self.done;
        let plan: MigrationPlan<'a, T> = self.plan;
        let ghost entries = plan@;
        let mut completed: Vec<PlannedStep<'a, T>> = plan.steps;
        completed.truncate(done);
        proof {
            assert(pairs(completed@) =~= entries.take(done as int));
        }
        completed
    }

    /// Takes note of how the pending transform ended.
    ///
    /// After a success the run goes on with the next entry, or is finished
    /// where none is left. A failure ends the run: it is reported with the
    /// entries that were applied before it.
    pub fn record<C>(self, outcome: Result<(), C>) -> (r: Result<
        Progress<'a, T>,
        MigrationFailed<'a, T, C>,
    >)
        ensures
            0 <= self.done() < self.entries().len(),
            match outcome {
                Ok(_) => match r {
                    Ok(Progress::Pending(next)) => {
                        &&& self.done() + 1 < self.entries().len()
                        &&& next.entries() == self.entries()
                        &&& next.target() == self.target()
                        &&& next.done() == self.done() + 1
                    },
                    Ok(Progress::Finished(v)) => {
                        &&& self.done() + 1 == self.entries().len()
                        &&& v == self.target()
                    },
                    Err(_) => false,
                },
                Err(cause) => match r {
                    Ok(_) => false,
                    Err(failure) => failure.stops(self.entries(), self.done(), cause),
                },
            },
    {
        proof {
            use_type_invariant(&self);
        }
        let done: usize = self.done;
        let plan: MigrationPlan<'a, T> = self.plan;
        let n: usize = plan.steps.len();
        match outcome {
            Ok(_) => {
                if done + 1 < n {
                    Ok(Progress::Pending(Pending { plan, done: done + 1 }))
                } else {
                    Ok(Progress::Finished(plan.target))
                }
            },
            Err(cause) => {
                let failing_version: VersionDescriptor = plan.steps[done].step.version;
                let direction: Direction = plan.steps[done].direction;
                let ghost entries = plan@;
                let mut completed: Vec<PlannedStep<'a, T>> = plan.steps;
                completed.truncate(done);
                proof {
                    assert(pairs(completed@) =~= entries.take(done as int));
                }
                Err(MigrationFailed { failing_version, direction, cause, completed })
            },
        }
    }
}

/// Starts a run of `plan`.
pub fn begin<'a, T>(plan: MigrationPlan<'a, T>) -> (r: Progress<'a, T>)
    ensures
        match r {
            Progress::Pending(next) => {
                &&& plan@.len() > 0
                &&& next.entries() == plan@
                &&& next.target() == plan.target
                &&& next.done() == 0
            },
            Progress::Finished(v) => plan@.len() == 0 && v == plan.target,
        },
{
    if plan.steps.len() == 0 {
        Progress::Finished(plan.target)
    } else {
        Progress::Pending(Pending { plan, done: 0 })
    }
}

/// Applying `entry` to the state `before` may leave `after` and end in
/// `outcome`, by what its transform says of itself.
pub open spec fn applies<S, T: Transform<S>>(
    entry: (VersionStep<T>, Direction),
    before: S,
    after: S,
    outcome: Result<(), T::Cause>,
) -> bool {
    match entry.1 {
        Direction::Up => entry.0.transform.up_effect(before, after, outcome),
        Direction::Down => entry.0.transform.down_effect(before, after, outcome),
    }
}

/// Applying all of `entries` in order, each with success, may take the state
/// `before` to `after`.
pub open spec fn advances<S, T: Transform<S>>(
    entries: Seq<(VersionStep<T>, Direction)>,
    before: S,
    after: S,
) -> bool
    decreases entries.len(),
{
    if entries.len() == 0 {
        after == before
    } else {
        exists|mid: S|
            #![trigger applies(entries.last(), mid, after, Ok(()))]
            advances(entries.drop_last(), before, mid) && applies(
                entries.last(),
                mid,
                after,
                Ok(()),
            )
    }
}

/// Applying the first `done` of `entries` with success and then the next one,
/// which fails with `cause`, may take the state `before` to `after`.
pub open spec fn halts<S, T: Transform<S>>(
    entries: Seq<(VersionStep<T>, Direction)>,
    done: int,
    before: S,
    after: S,
    cause: T::Cause,
) -> bool {
    exists|mid: S|
        #![trigger applies(entries[done], mid, after, Err(cause))]
        advances(entries.take(done), before, mid) && applies(
            entries[done],
            mid,
            after,
            Err(cause),
        )
}

/// Applies the entries of `plan` to `state`, in order, and stops at the first
/// transform that fails.
///
/// After a full run the result is the plan's target, and every entry was
/// applied with success. A failure names the entry that failed and holds the
/// entries before it, which were applied with success; nothing is rolled back.
pub fn run<'a, S, T: Transform<S>>(plan: MigrationPlan<'a, T>, state: &mut S) -> (r: Result<
    VersionDescriptor,
    MigrationFailed<'a, T, T::Cause>,
>)
    ensures
        match r {
            Ok(v) => v == plan.target && advances(plan@, *old(state), *final(state)),
            Err(failure) => {
                &&& failure.stops(plan@, failure.completed@.len() as int, failure.cause)
                &&& halts(
                    plan@,
                    failure.completed@.len() as int,
                    *old(state),
                    *final(state),
                    failure.cause,
                )
            },
        },
        plan@.len() == 0 ==> r is Ok,
{
    let ghost entries = plan@;
    let ghost target = plan.target;
    let ghost initial = *state;
    let mut progress: Progress<'a, T> = begin(plan);
    assert(entries.take(0) =~= Seq::empty());
    loop
        invariant
            entries == plan@,
            target == plan.target,
            initial == *old(state),
            match progress {
                Progress::Pending(next) => {
                    &&& next.entries() == entries
                    &&& next.target() == target
                    &&& 0 <= next.done() < entries.len()
                    &&& advances(entries.take(next.done()), initial, *state)
                },
                Progress::Finished(v) => v == target && advances(entries, initial, *state),
            },
            entries.len() == 0 ==> progress is Finished,
        decreases
            match progress {
                Progress::Pending(next) => entries.len() - next.done(),
                Progress::Finished(_) => 0,
            },
    {
        match progress {
            Progress::Finished(v) => {
                return Ok(v);
            },
            Progress::Pending(pending) => {
                let ghost done = pending.done();
                let ghost before = *state;
                let next: PlannedStep<'a, T> = pending.step();
                let outcome = match next.direction {
                    Direction::Up => next.step.transform.up(state),
                    Direction::Down => next.step.transform.down(state),
                };
                proof {
                    assert(applies(entries[done], before, *state, outcome));
                    assert(entries.take(done + 1).drop_last() =~= entries.take(done));
                    assert(entries.take(done + 1).last() == entries[done]);
                    assert(entries.take(entries.len() as int) =~= entries);
                }
                match pending.record(outcome) {
                    Ok(following) => {
                        proof {
                            assert(outcome->Ok_0 == ());
                            assert(advances(entries.take(done + 1), initial, *state));
                        }
                        progress = following;
                    },
                    Err(failure) => {
                        proof {
                            assert(pairs(failure.completed@).len() == failure.completed@.len());
                            assert(halts(entries, done, initial, *state, failure.cause));
                        }
                        return Err(failure);
                    },
                }
            },
        }
    }
}

} // verus!
