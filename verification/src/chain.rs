//! What it means for the steps of a registry to form one chain.
//!
//! All of it is stated over the registry's steps in ascending order of
//! version, so none of it depends on the order of registration.

use vstd::prelude::*;
use crate::descriptor::VersionDescriptor;
use crate::error::{ChainError, ChainInvariant};
use crate::registry::{ascending, holds, index_of, lemma_index_of};
use crate::step::VersionStep;

verus! {

/// No step is a root.
pub open spec fn rootless<T>(s: Seq<VersionStep<T>>) -> bool {
    forall|i: int| 0 <= i < s.len() ==> (#[trigger] s[i]).predecessor is Some
}

/// Some step before place `i` is a root.
pub open spec fn root_below<T>(s: Seq<VersionStep<T>>, i: int) -> bool {
    exists|k: int| 0 <= k < i && k < s.len() && (#[trigger] s[k]).predecessor is None
}

/// Following predecessors from version `v` ends at a root after at most `hops`
/// steps, without leaving the registry.
///
/// A walk that ends at all visits no step twice, so it ends within as many
/// hops as there are steps.
pub open spec fn reaches_root<T>(s: Seq<VersionStep<T>>, v: VersionDescriptor, hops: nat) -> bool
    decreases hops,
{
    holds(s, v) && match s[index_of(s, v)].predecessor {
        None => true,
        Some(p) => hops > 0 && reaches_root(s, p, (hops - 1) as nat),
    }
}

/// The step at place `i` breaks `rule`.
///
/// - `SingleRoot`: it is a root and a lower step is one too; where no step is
///   a root, the lowest step stands for the missing one.
/// - `KnownPredecessor`: it names a predecessor that is not registered.
/// - `ReachesRoot`: following predecessors from it does not end at a root.
/// - `AscendingLinks`: it does not follow the step just below it; the lowest
///   step should follow nothing.
pub open spec fn breaks<T>(s: Seq<VersionStep<T>>, rule: ChainInvariant, i: int) -> bool {
    match rule {
        ChainInvariant::SingleRoot => if rootless(s) {
            i == 0
        } else {
            s[i].predecessor is None && root_below(s, i)
        },
        ChainInvariant::KnownPredecessor => match s[i].predecessor {
            Some(p) => !holds(s, p),
            None => false,
        },
        ChainInvariant::ReachesRoot => !reaches_root(s, s[i].version, s.len()),
        ChainInvariant::AscendingLinks => s[i].predecessor != if i == 0 {
            None
        } else {
            Some(s[i - 1].version)
        },
    }
}

/// No step breaks `rule`.
pub open spec fn keeps<T>(s: Seq<VersionStep<T>>, rule: ChainInvariant) -> bool {
    forall|i: int| 0 <= i < s.len() ==> !#[trigger] breaks(s, rule, i)
}

/// The step at place `i` breaks `rule`, and no lower step does.
pub open spec fn first_break<T>(s: Seq<VersionStep<T>>, rule: ChainInvariant, i: int) -> bool {
    &&& 0 <= i < s.len()
    &&& breaks(s, rule, i)
    &&& forall|k: int| 0 <= k < i ==> !#[trigger] breaks(s, rule, k)
}

/// The place of the lowest step that breaks `rule`, where one does.
pub open spec fn lowest_break<T>(s: Seq<VersionStep<T>>, rule: ChainInvariant) -> int {
    choose|i: int| first_break(s, rule, i)
}

/// The error that names the lowest step breaking `rule`.
pub open spec fn broken<T>(s: Seq<VersionStep<T>>, rule: ChainInvariant) -> ChainError {
    ChainError::BrokenChain { invariant: rule, offender: s[lowest_break(s, rule)].version }
}

/// The place of the root, where there is one.
pub open spec fn root_index<T>(s: Seq<VersionStep<T>>) -> int {
    choose|i: int| 0 <= i < s.len() && (#[trigger] s[i]).predecessor is None
}

/// Why the steps `s`, with `rejected` the first version offered twice, do not
/// form a chain; `None` where they do.
///
/// A version offered twice comes first, then a registry without steps, then
/// the invariants in the order of their declaration.
pub open spec fn diagnosis<T>(
    s: Seq<VersionStep<T>>,
    rejected: Option<VersionDescriptor>,
) -> Option<ChainError> {
    if let Some(version) = rejected {
        Some(ChainError::DuplicateVersion { version })
    } else if s.len() == 0 {
        Some(ChainError::EmptyChain)
    } else if !keeps(s, ChainInvariant::SingleRoot) {
        Some(broken(s, ChainInvariant::SingleRoot))
    } else if !keeps(s, ChainInvariant::KnownPredecessor) {
        Some(broken(s, ChainInvariant::KnownPredecessor))
    } else if !keeps(s, ChainInvariant::ReachesRoot) {
        Some(broken(s, ChainInvariant::ReachesRoot))
    } else if !keeps(s, ChainInvariant::AscendingLinks) {
        Some(broken(s, ChainInvariant::AscendingLinks))
    } else {
        None
    }
}

/// The steps form one chain: ascending, and nothing to diagnose.
pub open spec fn well_formed<T>(s: Seq<VersionStep<T>>) -> bool {
    ascending(s) && diagnosis(s, None) is None
}

/// The lowest step that breaks an invariant is the only first one.
pub proof fn lemma_lowest_break<T>(s: Seq<VersionStep<T>>, rule: ChainInvariant, i: int)
    requires
        first_break(s, rule, i),
    ensures
        lowest_break(s, rule) == i,
        !keeps(s, rule),
{
    let j = lowest_break(s, rule);
    assert(first_break(s, rule, j));
    if j < i {
        assert(!breaks(s, rule, j));
    } else if i < j {
        assert(!breaks(s, rule, i));
    }
}

/// Where one step is the only root, `root_index` is its place.
pub proof fn lemma_root_index<T>(s: Seq<VersionStep<T>>, i: int)
    requires
        keeps(s, ChainInvariant::SingleRoot),
        0 <= i < s.len(),
        s[i].predecessor is None,
    ensures
        root_index(s) == i,
{
    let j = root_index(s);
    assert(0 <= j < s.len() && s[j].predecessor is None);
    assert(!rootless(s));
    if j < i {
        assert(root_below(s, i));
        assert(breaks(s, ChainInvariant::SingleRoot, i));
    } else if i < j {
        assert(root_below(s, j));
        assert(breaks(s, ChainInvariant::SingleRoot, j));
    }
}

/// In a chain every step but the lowest follows the step just below it, and
/// the lowest follows nothing.
pub proof fn lemma_links<T>(s: Seq<VersionStep<T>>, i: int)
    requires
        well_formed(s),
        0 <= i < s.len(),
    ensures
        i == 0 ==> s[i].predecessor == None::<VersionDescriptor>,
        i > 0 ==> s[i].predecessor == Some(s[i - 1].version),
{
    assert(!breaks(s, ChainInvariant::AscendingLinks, i));
}

/// In an ascending sequence whose steps each follow the step just below
/// them, following predecessors from place `i` ends at the root within `i`
/// hops.
proof fn lemma_walk_down<T>(s: Seq<VersionStep<T>>, i: int, hops: nat)
    requires
        ascending(s),
        keeps(s, ChainInvariant::AscendingLinks),
        0 <= i < s.len(),
        i <= hops,
    ensures
        reaches_root(s, s[i].version, hops),
    decreases i,
{
    lemma_index_of(s, i);
    assert(!breaks(s, ChainInvariant::AscendingLinks, i));
    if i > 0 {
        lemma_walk_down(s, i - 1, (hops - 1) as nat);
    }
}

/// Steps form a chain exactly when, in ascending order, the lowest follows
/// nothing and every other follows the step just below it: the other
/// invariants come with that.
pub proof fn lemma_linked_is_chain<T>(s: Seq<VersionStep<T>>)
    requires
        ascending(s),
        s.len() > 0,
        keeps(s, ChainInvariant::AscendingLinks),
    ensures
        well_formed(s),
{
    assert(!breaks(s, ChainInvariant::AscendingLinks, 0));
    assert(s[0].predecessor is None);
    assert(!rootless(s));
    assert forall|i: int| 0 <= i < s.len() implies !#[trigger] breaks(
        s,
        ChainInvariant::SingleRoot,
        i,
    ) by {
        assert(!breaks(s, ChainInvariant::AscendingLinks, i));
    }
    assert forall|i: int| 0 <= i < s.len() implies !#[trigger] breaks(
        s,
        ChainInvariant::KnownPredecessor,
        i,
    ) by {
        assert(!breaks(s, ChainInvariant::AscendingLinks, i));
        if i > 0 {
            assert(s[i - 1].version == s[i - 1].version);
            assert(holds(s, s[i - 1].version));
        }
    }
    assert forall|i: int| 0 <= i < s.len() implies !#[trigger] breaks(
        s,
        ChainInvariant::ReachesRoot,
        i,
    ) by {
        lemma_walk_down(s, i, s.len());
    }
}

/// What holds of a chain, in plain words: the lowest step is the only root;
/// every other step follows a registered step of lower version; no two steps
/// share a version or a predecessor; and from every step the root is reached.
pub proof fn lemma_chain_properties<T>(s: Seq<VersionStep<T>>)
    requires
        well_formed(s),
    ensures
        s.len() > 0,
        forall|i: int| 0 <= i < s.len() ==> ((#[trigger] s[i]).predecessor is None <==> i == 0),
        forall|i: int|
            0 < i < s.len() ==> holds(s, (#[trigger] s[i]).predecessor->Some_0)
                && s[i].predecessor->Some_0.precedes(s[i].version),
        forall|i: int, j: int|
            0 <= i < s.len() && 0 <= j < s.len() && i != j ==> (#[trigger] s[i]).version
                != (#[trigger] s[j]).version,
        forall|i: int, j: int|
            0 < i < s.len() && 0 < j < s.len() && i != j ==> (#[trigger] s[i]).predecessor
                != (#[trigger] s[j]).predecessor,
        forall|i: int| 0 <= i < s.len() ==> reaches_root(s, (#[trigger] s[i]).version, s.len()),
{
    assert forall|i: int| 0 <= i < s.len() implies ((#[trigger] s[i]).predecessor is None <==> i
        == 0) by {
        lemma_links(s, i);
    }
    assert forall|i: int| 0 < i < s.len() implies holds(s, (#[trigger] s[i]).predecessor->Some_0)
        && s[i].predecessor->Some_0.precedes(s[i].version) by {
        lemma_links(s, i);
        assert(s[i - 1].version.precedes(s[i].version));
        assert(holds(s, s[i - 1].version));
    }
    assert forall|i: int, j: int|
        0 <= i < s.len() && 0 <= j < s.len() && i != j implies (#[trigger] s[i]).version != (
    #[trigger] s[j]).version by {
        if i < j {
            assert(s[i].version.precedes(s[j].version));
        } else {
            assert(s[j].version.precedes(s[i].version));
        }
    }
    assert forall|i: int, j: int|
        0 < i < s.len() && 0 < j < s.len() && i != j implies (#[trigger] s[i]).predecessor != (
    #[trigger] s[j]).predecessor by {
        lemma_links(s, i);
        lemma_links(s, j);
        if i < j {
            assert(s[i - 1].version.precedes(s[j - 1].version));
        } else {
            assert(s[j - 1].version.precedes(s[i - 1].version));
        }
    }
    assert forall|i: int| 0 <= i < s.len() implies reaches_root(
        s,
        (#[trigger] s[i]).version,
        s.len(),
    ) by {
        assert(!breaks(s, ChainInvariant::ReachesRoot, i));
    }
}

} // verus!
