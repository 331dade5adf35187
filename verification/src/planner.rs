//! Planning over a registry whose steps form one chain.

use vstd::prelude::*;
use crate::chain::{diagnosis, lemma_links, well_formed};
use crate::descriptor::VersionDescriptor;
use crate::error::ChainError;
use crate::plan::{
    ascent, descent, lemma_places_follow_versions, pairs, reversal, route, MigrationPlan,
    PlannedStep,
};
use crate::registry::{holds, index_of, lemma_index_of, ChainRegistry};
use crate::step::{Direction, VersionStep};

verus! {

/// A registry that passed every check of a chain, sealed against change.
///
/// A planner can only be made from such a registry, so every plan comes from
/// a chain.
pub struct MigrationPlanner<T> {
    registry: ChainRegistry<T>,
}

impl<T> MigrationPlanner<T> {
    #[verifier::type_invariant]
    spec fn sound(self) -> bool {
        well_formed(self.registry.steps()) && self.registry.rejected() is None
    }

    /// The steps of the chain, from the root to the latest release.
    pub closed spec fn steps(self) -> Seq<VersionStep<T>> {
        self.registry.steps()
    }

    /// Seals `registry`, or says why its steps do not form a chain.
    pub fn new(registry: ChainRegistry<T>) -> (r: Result<Self, ChainError>)
        ensures
            match r {
                Ok(planner) => {
                    &&& diagnosis(registry.steps(), registry.rejected()) is None
                    &&& planner.steps() == registry.steps()
                    &&& well_formed(planner.steps())
                },
                Err(e) => diagnosis(registry.steps(), registry.rejected()) == Some(e),
            },
    {
        match registry.diagnose() {
            Some(e) => Err(e),
            None => Ok(MigrationPlanner { registry }),
        }
    }

    /// The sealed registry, for its queries.
    pub fn registry(&self) -> (r: &ChainRegistry<T>)
        ensures
            r.steps() == self.steps(),
            r.rejected() is None,
            well_formed(self.steps()),
    {
        proof {
            use_type_invariant(self);
        }
        &self.registry
    }

    /// The plan that takes state shaped for `current` to state shaped for
    /// `target`.
    pub fn plan<'a>(&'a self, current: &VersionDescriptor, target: &VersionDescriptor) -> (r:
        Result<MigrationPlan<'a, T>, ChainError>)
        ensures
            well_formed(self.steps()),
            match r {
                Ok(p) => {
                    &&& route(self.steps(), *current, *target) == Ok::<_, ChainError>(p@)
                    &&& p.start == *current
                    &&& p.target == *target
                },
                Err(e) => route(self.steps(), *current, *target) == Err::<
                    Seq<(VersionStep<T>, Direction)>,
                    _,
                >(e),
            },
            *current == *target ==> r is Ok && r->Ok_0@.len() == 0,
    {
        proof {
            use_type_invariant(self);
        }
        let ghost s = self.registry.steps();
        let mut steps: Vec<PlannedStep<'a, T>> = Vec::new();
        if *current == *target {
            assert(pairs(steps@) =~= Seq::empty());
            return Ok(MigrationPlan { start: *current, target: *target, steps });
        }
        let i: usize = match self.registry.position(current) {
            Some(i) => i,
            None => {
                return Err(ChainError::UnknownVersion { version: *current });
            },
        };
        let j: usize = match self.registry.position(target) {
            Some(j) => j,
            None => {
                return Err(ChainError::UnknownVersion { version: *target });
            },
        };
        let n: usize = self.registry.len();
        proof {
            assert(0 <= i < n && s[i as int].version == *current);
            assert(0 <= j < n && s[j as int].version == *target);
            lemma_places_follow_versions(s, i as int, j as int);
        }
        if i < j {
            let mut k: usize = i + 1;
            while k <= j
                invariant
                    s == self.registry.steps(),
                    i < k <= j + 1,
                    j < n,
                    n == s.len(),
                    steps@.len() == k - i - 1,
                    forall|m: int|
                        0 <= m < steps@.len() ==> (#[trigger] steps@[m]).pair() == (
                            s[i + 1 + m],
                            Direction::Up,
                        ),
                decreases j + 1 - k,
            {
                let step: &'a VersionStep<T> = self.registry.at(k);
                steps.push(PlannedStep { step, direction: Direction::Up });
                k = k + 1;
            }
            assert(pairs(steps@) =~= ascent(s, i as int, j as int));
        } else {
            let mut k: usize = i;
            while k > j
                invariant
                    s == self.registry.steps(),
                    j <= k <= i,
                    i < n,
                    n == s.len(),
                    steps@.len() == i - k,
                    forall|m: int|
                        0 <= m < steps@.len() ==> (#[trigger] steps@[m]).pair() == (
                            s[i - m],
                            Direction::Down,
                        ),
                decreases k,
            {
                let step: &'a VersionStep<T> = self.registry.at(k);
                steps.push(PlannedStep { step, direction: Direction::Down });
                k = k - 1;
            }
            assert(pairs(steps@) =~= descent(s, i as int, j as int));
        }
        Ok(MigrationPlan { start: *current, target: *target, steps })
    }
}

/// From a version to itself the plan is empty.
pub proof fn lemma_plan_to_self_is_empty<T>(s: Seq<VersionStep<T>>, v: VersionDescriptor)
    ensures
        route(s, v, v) == Ok::<_, ChainError>(Seq::<(VersionStep<T>, Direction)>::empty()),
{
}

/// Between a release and the one it follows the plan is that release's one
/// transform: forward on the way up, backward on the way down.
pub proof fn lemma_plan_between_neighbours<T>(
    s: Seq<VersionStep<T>>,
    p: VersionDescriptor,
    v: VersionDescriptor,
)
    requires
        well_formed(s),
        holds(s, v),
        s[index_of(s, v)].predecessor == Some(p),
    ensures
        route(s, p, v) == Ok::<_, ChainError>(seq![(s[index_of(s, v)], Direction::Up)]),
        route(s, v, p) == Ok::<_, ChainError>(seq![(s[index_of(s, v)], Direction::Down)]),
{
    let j = index_of(s, v);
    assert(0 <= j < s.len() && s[j].version == v);
    lemma_links(s, j);
    lemma_index_of(s, j);
    lemma_index_of(s, j - 1);
    lemma_places_follow_versions(s, j - 1, j);
    assert(ascent(s, j - 1, j) =~= seq![(s[j], Direction::Up)]);
    assert(descent(s, j, j - 1) =~= seq![(s[j], Direction::Down)]);
}

/// The plan back is the plan there read backwards, with every direction
/// turned round.
pub proof fn lemma_plan_back_is_reversal<T>(
    s: Seq<VersionStep<T>>,
    a: VersionDescriptor,
    b: VersionDescriptor,
)
    requires
        well_formed(s),
        holds(s, a),
        holds(s, b),
    ensures
        route(s, a, b) is Ok,
        route(s, b, a) == Ok::<_, ChainError>(reversal(route(s, a, b)->Ok_0)),
{
    let i = index_of(s, a);
    let j = index_of(s, b);
    assert(0 <= i < s.len() && s[i].version == a);
    assert(0 <= j < s.len() && s[j].version == b);
    lemma_places_follow_versions(s, i, j);
    lemma_places_follow_versions(s, j, i);
    if a == b {
        assert(reversal(Seq::<(VersionStep<T>, Direction)>::empty()) =~= Seq::empty());
    } else if i < j {
        assert(descent(s, j, i) =~= reversal(ascent(s, i, j)));
    } else {
        assert(ascent(s, j, i) =~= reversal(descent(s, i, j)));
    }
}

} // verus!
