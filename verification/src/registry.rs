//! The registry of known releases, kept in ascending order of version.

use vstd::prelude::*;
use crate::chain::{
    breaks, broken, diagnosis, keeps, lemma_lowest_break, lemma_root_index, reaches_root,
    root_below, root_index, rootless, well_formed,
};
use crate::descriptor::VersionDescriptor;
use crate::error::{ChainError, ChainInvariant};
use crate::planner::MigrationPlanner;
use crate::step::VersionStep;

verus! {

/// No two steps share a version, and lower versions come first.
pub open spec fn ascending<T>(s: Seq<VersionStep<T>>) -> bool {
    forall|i: int, j: int|
        0 <= i < j < s.len() ==> (#[trigger] s[i]).version.precedes((#[trigger] s[j]).version)
}

/// Some step of `s` has version `v`.
pub open spec fn holds<T>(s: Seq<VersionStep<T>>, v: VersionDescriptor) -> bool {
    exists|i: int| 0 <= i < s.len() && (#[trigger] s[i]).version == v
}

/// The place of the step with version `v`, where `s` holds one.
pub open spec fn index_of<T>(s: Seq<VersionStep<T>>, v: VersionDescriptor) -> int {
    choose|i: int| 0 <= i < s.len() && (#[trigger] s[i]).version == v
}

/// The number of leading steps whose version precedes `v`: in an ascending
/// sequence, the place at which a step with version `v` belongs.
pub open spec fn rank<T>(s: Seq<VersionStep<T>>, v: VersionDescriptor) -> int
    decreases s.len(),
{
    if s.len() == 0 {
        0
    } else if s.last().version.precedes(v) {
        s.len() as int
    } else {
        rank(s.drop_last(), v)
    }
}

/// Everything before place `k` precedes `v`, and `v` precedes everything from
/// `k` on.
pub open spec fn splits_at<T>(s: Seq<VersionStep<T>>, v: VersionDescriptor, k: int) -> bool {
    &&& 0 <= k <= s.len()
    &&& forall|i: int| 0 <= i < k ==> (#[trigger] s[i]).version.precedes(v)
    &&& forall|i: int| k <= i < s.len() ==> v.precedes((#[trigger] s[i]).version)
}

/// In an ascending sequence a version occurs at one place only.
pub proof fn lemma_index_of<T>(s: Seq<VersionStep<T>>, i: int)
    requires
        ascending(s),
        0 <= i < s.len(),
    ensures
        holds(s, s[i].version),
        index_of(s, s[i].version) == i,
{
    let j = index_of(s, s[i].version);
    assert(0 <= j < s.len() && s[j].version == s[i].version);
    if j < i {
        assert(s[j].version.precedes(s[i].version));
    } else if i < j {
        assert(s[i].version.precedes(s[j].version));
    }
}

/// Where a sequence splits around `v`, it does not hold `v`, and the split is
/// at `rank`.
pub proof fn lemma_rank<T>(s: Seq<VersionStep<T>>, v: VersionDescriptor, k: int)
    requires
        splits_at(s, v, k),
    ensures
        rank(s, v) == k,
        !holds(s, v),
    decreases s.len(),
{
    if s.len() > 0 {
        let t = s.drop_last();
        if s.last().version.precedes(v) {
            if k < s.len() {
                assert(v.precedes(s[s.len() - 1].version));
            }
        } else {
            if k == s.len() {
                assert(s[s.len() - 1].version.precedes(v));
            }
            assert forall|i: int| 0 <= i < k implies (#[trigger] t[i]).version.precedes(v) by {
                assert(t[i] == s[i]);
            }
            assert forall|i: int| k <= i < t.len() implies v.precedes((#[trigger] t[i]).version) by {
                assert(t[i] == s[i]);
            }
            lemma_rank(t, v, k);
        }
    }
    if holds(s, v) {
        let i = index_of(s, v);
        assert(s[i].version == v);
        if i < k {
            assert(s[i].version.precedes(v));
        } else {
            assert(v.precedes(s[i].version));
        }
    }
}

/// In an ascending sequence that does not hold `v`, `rank` is the place
/// around which the sequence splits.
pub proof fn lemma_rank_splits<T>(s: Seq<VersionStep<T>>, v: VersionDescriptor)
    requires
        ascending(s),
        !holds(s, v),
    ensures
        splits_at(s, v, rank(s, v)),
    decreases s.len(),
{
    if s.len() > 0 {
        let t = s.drop_last();
        let n = s.len() - 1;
        assert(s[n].version != v);
        if s.last().version.precedes(v) {
            assert forall|i: int| 0 <= i < s.len() implies (#[trigger] s[i]).version.precedes(
                v,
            ) by {
                if i < n {
                    assert(s[i].version.precedes(s[n].version));
                }
            }
        } else {
            assert(v.precedes(s[n].version));
            assert forall|i: int, j: int| 0 <= i < j < t.len() implies (#[trigger] t[i])
                .version.precedes((#[trigger] t[j]).version) by {
                assert(t[i] == s[i] && t[j] == s[j]);
            }
            if holds(t, v) {
                let i = index_of(t, v);
                assert(t[i] == s[i]);
            }
            lemma_rank_splits(t, v);
            let k = rank(t, v);
            assert forall|i: int| 0 <= i < k implies (#[trigger] s[i]).version.precedes(v) by {
                assert(t[i] == s[i]);
            }
            assert forall|i: int| k <= i < s.len() implies v.precedes(
                (#[trigger] s[i]).version,
            ) by {
                if i < n {
                    assert(t[i] == s[i]);
                }
            }
        }
    }
}

/// The steps `s` with `step` added at its place.
pub open spec fn with_step<T>(s: Seq<VersionStep<T>>, step: VersionStep<T>) -> Seq<
    VersionStep<T>,
> {
    s.insert(rank(s, step.version), step)
}

/// The order of registration does not matter: two steps with different new
/// versions, added one after the other, give the same steps either way.
pub proof fn lemma_registration_order<T>(
    s: Seq<VersionStep<T>>,
    x: VersionStep<T>,
    y: VersionStep<T>,
)
    requires
        ascending(s),
        !holds(s, x.version),
        !holds(s, y.version),
        x.version != y.version,
    ensures
        with_step(with_step(s, x), y) == with_step(with_step(s, y), x),
    decreases
            (if x.version.precedes(y.version) {
                0nat
            } else {
                1nat
            }),
{
    if x.version.precedes(y.version) {
        lemma_rank_splits(s, x.version);
        lemma_rank_splits(s, y.version);
        let kx = rank(s, x.version);
        let ky = rank(s, y.version);
        if ky < kx {
            assert(s[ky].version.precedes(x.version));
            assert(y.version.precedes(s[ky].version));
        }
        let sx = s.insert(kx, x);
        let sy = s.insert(ky, y);
        assert(splits_at(sx, y.version, ky + 1)) by {
            assert forall|i: int| 0 <= i < ky + 1 implies (#[trigger] sx[i]).version.precedes(
                y.version,
            ) by {
                if i < kx {
                    assert(sx[i] == s[i]);
                } else if i > kx {
                    assert(sx[i] == s[i - 1]);
                }
            }
            assert forall|i: int| ky + 1 <= i < sx.len() implies y.version.precedes(
                (#[trigger] sx[i]).version,
            ) by {
                assert(sx[i] == s[i - 1]);
            }
        }
        assert(splits_at(sy, x.version, kx)) by {
            assert forall|i: int| 0 <= i < kx implies (#[trigger] sy[i]).version.precedes(
                x.version,
            ) by {
                assert(sy[i] == s[i]);
            }
            assert forall|i: int| kx <= i < sy.len() implies x.version.precedes(
                (#[trigger] sy[i]).version,
            ) by {
                if i < ky {
                    assert(sy[i] == s[i]);
                } else if i > ky {
                    assert(sy[i] == s[i - 1]);
                }
            }
        }
        lemma_rank(sx, y.version, ky + 1);
        lemma_rank(sy, x.version, kx);
        assert(sx.insert(ky + 1, y) =~= sy.insert(kx, x));
    } else {
        lemma_registration_order(s, y, x);
    }
}

/// The known releases, each under its version.
///
/// The registry owns its steps. It keeps them in ascending order of version,
/// so what it holds does not depend on the order of registration.
pub struct ChainRegistry<T> {
    steps: Vec<VersionStep<T>>,
    rejected: Option<VersionDescriptor>,
}

impl<T> ChainRegistry<T> {
    #[verifier::type_invariant]
    spec fn ordered(self) -> bool {
        ascending(self.steps@)
    }

    /// The registered steps, lowest version first.
    pub closed spec fn steps(self) -> Seq<VersionStep<T>> {
        self.steps@
    }

    /// The first version that was offered a second time, if any was.
    pub closed spec fn rejected(self) -> Option<VersionDescriptor> {
        self.rejected
    }

    /// A registry without steps.
    pub fn new() -> (registry: Self)
        ensures
            registry.steps() == Seq::<VersionStep<T>>::empty(),
            registry.rejected() == None::<VersionDescriptor>,
    {
        ChainRegistry { steps: Vec::new(), rejected: None }
    }

    /// The number of registered steps.
    pub fn len(&self) -> (n: usize)
        ensures
            n == self.steps().len(),
            ascending(self.steps()),
    {
        proof {
            use_type_invariant(self);
        }
        self.steps.len()
    }

    /// Whether no step is registered.
    pub fn is_empty(&self) -> (b: bool)
        ensures
            b == (self.steps().len() == 0),
    {
        self.steps.len() == 0
    }

    /// Finds the place of `v`, or else the place at which it belongs.
    fn locate(&self, v: &VersionDescriptor) -> (r: (usize, bool))
        ensures
            ascending(self.steps()),
            r.1 ==> r.0 < self.steps().len() && self.steps()[r.0 as int].version == *v,
            !r.1 ==> splits_at(self.steps(), *v, r.0 as int),
    {
        proof {
            use_type_invariant(self);
        }
        let mut lo: usize = 0;
        let mut hi: usize = self.steps.len();
        while lo < hi
            invariant
                0 <= lo <= hi <= self.steps@.len(),
                ascending(self.steps@),
                forall|i: int| 0 <= i < lo ==> (#[trigger] self.steps@[i]).version.precedes(*v),
                forall|i: int|
                    hi <= i < self.steps@.len() ==> v.precedes((#[trigger] self.steps@[i]).version),
            decreases hi - lo,
        {
            let mid: usize = lo + (hi - lo) / 2;
            let here: VersionDescriptor = self.steps[mid].version;
            if here.is_before(v) {
                assert forall|i: int| 0 <= i < mid + 1 implies (#[trigger] self.steps@[i])
                    .version.precedes(*v) by {
                    if i < mid {
                        assert(self.steps@[i].version.precedes(self.steps@[mid as int].version));
                    }
                }
                lo = mid + 1;
            } else if v.is_before(&here) {
                assert forall|i: int| mid <= i < self.steps@.len() implies v.precedes(
                    (#[trigger] self.steps@[i]).version,
                ) by {
                    if mid < i {
                        assert(self.steps@[mid as int].version.precedes(self.steps@[i].version));
                    }
                }
                hi = mid;
            } else {
                return (mid, true);
            }
        }
        (lo, false)
    }

    /// Whether a step with version `v` is registered.
    pub fn contains(&self, v: &VersionDescriptor) -> (b: bool)
        ensures
            b == holds(self.steps(), *v),
    {
        let (k, found) = self.locate(v);
        proof {
            if !found {
                lemma_rank(self.steps(), *v, k as int);
            }
        }
        found
    }

    /// Adds a step, unless one with its version is registered already.
    ///
    /// A refusal leaves the steps as they were and is remembered: the registry
    /// keeps the first version that was offered twice.
    pub fn register(&mut self, step: VersionStep<T>) -> (r: Result<(), ChainError>)
        ensures
            ascending(final(self).steps()),
            holds(old(self).steps(), step.version) ==> {
                &&& r == Err::<(), ChainError>(
                    ChainError::DuplicateVersion { version: step.version },
                )
                &&& final(self).steps() == old(self).steps()
                &&& final(self).rejected() == if old(self).rejected() is Some {
                    old(self).rejected()
                } else {
                    Some(step.version)
                }
            },
            !holds(old(self).steps(), step.version) ==> {
                &&& r == Ok::<(), ChainError>(())
                &&& final(self).steps() == with_step(old(self).steps(), step)
                &&& final(self).rejected() == old(self).rejected()
            },
    {
        let version: VersionDescriptor = step.version;
        let (k, found) = self.locate(&version);
        if found {
            if self.rejected.is_none() {
                self.rejected = Some(version);
            }
            Err(ChainError::DuplicateVersion { version })
        } else {
            proof {
                lemma_rank(self.steps@, version, k as int);
            }
            let ghost before = self.steps@;
            let mut steps: Vec<VersionStep<T>> = Vec::new();
            core::mem::swap(&mut self.steps, &mut steps);
            steps.insert(k, step);
            proof {
                let after = steps@;
                assert forall|i: int, j: int| 0 <= i < j < after.len() implies (#[trigger] after[i])
                    .version.precedes((#[trigger] after[j]).version) by {
                    if j < k {
                        assert(after[i] == before[i] && after[j] == before[j]);
                    } else if j == k {
                        assert(after[i] == before[i]);
                    } else if i < k {
                        assert(after[i] == before[i] && after[j] == before[j - 1]);
                    } else if i == k {
                        assert(after[j] == before[j - 1]);
                    } else {
                        assert(after[i] == before[i - 1] && after[j] == before[j - 1]);
                    }
                }
            }
            core::mem::swap(&mut self.steps, &mut steps);
            Ok(())
        }
    }

    /// The step with version `v`.
    pub fn lookup(&self, v: &VersionDescriptor) -> (r: Result<&VersionStep<T>, ChainError>)
        ensures
            match r {
                Ok(step) => holds(self.steps(), *v) && *step == self.steps()[index_of(
                    self.steps(),
                    *v,
                )],
                Err(e) => !holds(self.steps(), *v) && e == (ChainError::UnknownVersion {
                    version: *v,
                }),
            },
    {
        let (k, found) = self.locate(v);
        if found {
            proof {
                lemma_index_of(self.steps(), k as int);
            }
            Ok(&self.steps[k])
        } else {
            proof {
                lemma_rank(self.steps(), *v, k as int);
            }
            Err(ChainError::UnknownVersion { version: *v })
        }
    }

    /// The step with the highest version.
    pub fn latest(&self) -> (r: Result<&VersionStep<T>, ChainError>)
        ensures
            match r {
                Ok(step) => self.steps().len() > 0 && *step == self.steps().last(),
                Err(e) => self.steps().len() == 0 && e == ChainError::EmptyChain,
            },
    {
        let n: usize = self.steps.len();
        if n == 0 {
            Err(ChainError::EmptyChain)
        } else {
            Ok(&self.steps[n - 1])
        }
    }
    /// The place of the step with version `v`.
    pub fn position(&self, v: &VersionDescriptor) -> (r: Option<usize>)
        ensures
            ascending(self.steps()),
            match r {
                Some(i) => holds(self.steps(), *v) && i == index_of(self.steps(), *v),
                None => !holds(self.steps(), *v),
            },
    {
        let (k, found) = self.locate(v);
        if found {
            proof {
                lemma_index_of(self.steps(), k as int);
            }
            Some(k)
        } else {
            proof {
                lemma_rank(self.steps(), *v, k as int);
            }
            None
        }
    }

    /// The step at place `i`, counted from the lowest version.
    pub fn get(&self, i: usize) -> (r: Option<&VersionStep<T>>)
        ensures
            match r {
                Some(step) => i < self.steps().len() && *step == self.steps()[i as int],
                None => i >= self.steps().len(),
            },
    {
        if i < self.steps.len() {
            Some(&self.steps[i])
        } else {
            None
        }
    }

    /// The step at place `i`.
    pub(crate) fn at(&self, i: usize) -> (step: &VersionStep<T>)
        requires
            i < self.steps().len(),
        ensures
            *step == self.steps()[i as int],
    {
        &self.steps[i]
    }

    /// The place of the lowest root.
    fn first_root(&self) -> (r: Option<usize>)
        ensures
            match r {
                Some(i) => {
                    &&& i < self.steps().len()
                    &&& self.steps()[i as int].predecessor is None
                    &&& !rootless(self.steps())
                },
                None => rootless(self.steps()),
            },
    {
        let n: usize = self.steps.len();
        let mut i: usize = 0;
        while i < n
            invariant
                n == self.steps@.len(),
                i <= n,
                forall|k: int| 0 <= k < i ==> (#[trigger] self.steps@[k]).predecessor is Some,
            decreases n - i,
        {
            if self.steps[i].predecessor.is_none() {
                return Some(i);
            }
            i = i + 1;
        }
        None
    }

    fn has_root_below(&self, i: usize) -> (b: bool)
        requires
            i <= self.steps().len(),
        ensures
            b == root_below(self.steps(), i as int),
    {
        let mut k: usize = 0;
        while k < i
            invariant
                i <= self.steps@.len(),
                k <= i,
                forall|m: int| 0 <= m < k ==> (#[trigger] self.steps@[m]).predecessor is Some,
            decreases i - k,
        {
            if self.steps[k].predecessor.is_none() {
                return true;
            }
            k = k + 1;
        }
        false
    }

    fn reaches_root_from(&self, start: usize) -> (b: bool)
        requires
            start < self.steps().len(),
        ensures
            b == reaches_root(
                self.steps(),
                self.steps()[start as int].version,
                self.steps().len(),
            ),
    {
        proof {
            use_type_invariant(self);
        }
        let n: usize = self.steps.len();
        let mut cur: usize = start;
        let mut hops: usize = n;
        loop
            invariant
                n == self.steps@.len(),
                ascending(self.steps@),
                start < n,
                cur < n,
                hops <= n,
                reaches_root(self.steps@, self.steps@[start as int].version, n as nat)
                    == reaches_root(self.steps@, self.steps@[cur as int].version, hops as nat),
            decreases hops,
        {
            proof {
                lemma_index_of(self.steps@, cur as int);
            }
            match self.steps[cur].predecessor {
                None => {
                    return true;
                },
                Some(p) => {
                    if hops == 0 {
                        return false;
                    }
                    let (k, found) = self.locate(&p);
                    if !found {
                        proof {
                            lemma_rank(self.steps@, p, k as int);
                            assert(!reaches_root(self.steps@, p, (hops - 1) as nat));
                        }
                        return false;
                    }
                    cur = k;
                    hops = hops - 1;
                },
            }
        }
    }

    fn breaks_at(&self, rule: ChainInvariant, i: usize) -> (b: bool)
        requires
            i < self.steps().len(),
        ensures
            b == breaks(self.steps(), rule, i as int),
    {
        match rule {
            ChainInvariant::SingleRoot => {
                if self.first_root().is_none() {
                    i == 0
                } else {
                    self.steps[i].predecessor.is_none() && self.has_root_below(i)
                }
            },
            ChainInvariant::KnownPredecessor => {
                match self.steps[i].predecessor {
                    Some(p) => !self.contains(&p),
                    None => false,
                }
            },
            ChainInvariant::ReachesRoot => !self.reaches_root_from(i),
            ChainInvariant::AscendingLinks => {
                match self.steps[i].predecessor {
                    None => i != 0,
                    Some(p) => i == 0 || p != self.steps[i - 1].version,
                }
            },
        }
    }

    /// Checks one invariant, and names the lowest step that breaks it.
    pub fn check(&self, rule: ChainInvariant) -> (r: Result<(), ChainError>)
        ensures
            match r {
                Ok(_) => keeps(self.steps(), rule),
                Err(e) => !keeps(self.steps(), rule) && e == broken(self.steps(), rule),
            },
    {
        let n: usize = self.steps.len();
        let mut i: usize = 0;
        while i < n
            invariant
                n == self.steps@.len(),
                i <= n,
                forall|k: int| 0 <= k < i ==> !#[trigger] breaks(self.steps@, rule, k),
            decreases n - i,
        {
            if self.breaks_at(rule, i) {
                proof {
                    lemma_lowest_break(self.steps@, rule, i as int);
                }
                return Err(
                    ChainError::BrokenChain { invariant: rule, offender: self.steps[i].version },
                );
            }
            i = i + 1;
        }
        Ok(())
    }

    /// The one step that follows nothing.
    ///
    /// Fails with `EmptyChain` on a registry without steps, and with
    /// `BrokenChain` where the steps have no root or more than one.
    pub fn root(&self) -> (r: Result<&VersionStep<T>, ChainError>)
        ensures
            match r {
                Ok(step) => {
                    &&& self.steps().len() > 0
                    &&& keeps(self.steps(), ChainInvariant::SingleRoot)
                    &&& step.predecessor is None
                    &&& 0 <= root_index(self.steps()) < self.steps().len()
                    &&& *step == self.steps()[root_index(self.steps())]
                },
                Err(e) => if self.steps().len() == 0 {
                    e == ChainError::EmptyChain
                } else {
                    !keeps(self.steps(), ChainInvariant::SingleRoot) && e == broken(
                        self.steps(),
                        ChainInvariant::SingleRoot,
                    )
                },
            },
    {
        if self.steps.len() == 0 {
            return Err(ChainError::EmptyChain);
        }
        match self.first_root() {
            None => {
                proof {
                    lemma_lowest_break(self.steps@, ChainInvariant::SingleRoot, 0);
                }
                Err(
                    ChainError::BrokenChain {
                        invariant: ChainInvariant::SingleRoot,
                        offender: self.steps[0].version,
                    },
                )
            },
            Some(i) => match self.check(ChainInvariant::SingleRoot) {
                Err(e) => Err(e),
                Ok(_) => {
                    proof {
                        lemma_root_index(self.steps@, i as int);
                    }
                    Ok(&self.steps[i])
                },
            },
        }
    }

    /// Seals the registry once every step is registered: checks that the
    /// steps form one chain, and hands them to a planner.
    pub fn finalize(self) -> (r: Result<MigrationPlanner<T>, ChainError>)
        ensures
            match r {
                Ok(planner) => {
                    &&& diagnosis(self.steps(), self.rejected()) is None
                    &&& planner.steps() == self.steps()
                    &&& well_formed(planner.steps())
                },
                Err(e) => diagnosis(self.steps(), self.rejected()) == Some(e),
            },
    {
        MigrationPlanner::new(self)
    }

    /// Why the registry's steps do not form a chain, or `None` where they do.
    pub fn diagnose(&self) -> (r: Option<ChainError>)
        ensures
            ascending(self.steps()),
            r == diagnosis(self.steps(), self.rejected()),
    {
        proof {
            use_type_invariant(self);
        }
        if let Some(version) = self.rejected {
            return Some(ChainError::DuplicateVersion { version });
        }
        if self.steps.len() == 0 {
            return Some(ChainError::EmptyChain);
        }
        if let Err(e) = self.check(ChainInvariant::SingleRoot) {
            return Some(e);
        }
        if let Err(e) = self.check(ChainInvariant::KnownPredecessor) {
            return Some(e);
        }
        if let Err(e) = self.check(ChainInvariant::ReachesRoot) {
            return Some(e);
        }
        if let Err(e) = self.check(ChainInvariant::AscendingLinks) {
            return Some(e);
        }
        None
    }
}

} // verus!
