//! What going there and back again does to the state.

use vstd::prelude::*;
use crate::chain::well_formed;
use crate::descriptor::VersionDescriptor;
use crate::executor::{advances, applies};
use crate::plan::{lemma_places_follow_versions, reversal, route};
use crate::planner::lemma_plan_back_is_reversal;
use crate::registry::{holds, index_of};
use crate::step::{Direction, Transform, VersionStep};

verus! {

/// The transforms of `step` undo each other: where one succeeds and then the
/// other, the state is what it was before.
pub open spec fn inverse_pair<S, T: Transform<S>>(step: VersionStep<T>) -> bool {
    &&& forall|a: S, b: S, c: S|
        #![trigger step.transform.up_effect(a, b, Ok(())), step.transform.down_effect(b, c, Ok(()))]
        step.transform.up_effect(a, b, Ok(())) && step.transform.down_effect(b, c, Ok(())) ==> c
            == a
    &&& forall|a: S, b: S, c: S|
        #![trigger step.transform.down_effect(a, b, Ok(())), step.transform.up_effect(b, c, Ok(()))]
        step.transform.down_effect(a, b, Ok(())) && step.transform.up_effect(b, c, Ok(())) ==> c
            == a
}

/// Where `p` followed by `q` takes `x` to `z`, `p` takes `x` to some state
/// from which `q` leads to `z`.
pub proof fn lemma_advances_split<S, T: Transform<S>>(
    p: Seq<(VersionStep<T>, Direction)>,
    q: Seq<(VersionStep<T>, Direction)>,
    x: S,
    z: S,
) -> (m: S)
    requires
        advances(p + q, x, z),
    ensures
        advances(p, x, m),
        advances(q, m, z),
    decreases q.len(),
{
    if q.len() == 0 {
        assert(p + q =~= p);
        z
    } else {
        assert((p + q).drop_last() =~= p + q.drop_last());
        assert((p + q).last() == q.last());
        assert((p + q).len() > 0);
        let mid = choose|mid: S|
            #![trigger applies((p + q).last(), mid, z, Ok(()))]
            advances((p + q).drop_last(), x, mid) && applies((p + q).last(), mid, z, Ok(()));
        let m = lemma_advances_split(p, q.drop_last(), x, mid);
        assert(advances(q.drop_last(), m, mid) && applies(q.last(), mid, z, Ok(())));
        m
    }
}

/// Where the transforms of every entry of `p` undo each other, a run of `p`
/// followed by a run of its reversal gives back the state.
pub proof fn lemma_reversal_undoes<S, T: Transform<S>>(
    p: Seq<(VersionStep<T>, Direction)>,
    x: S,
    y: S,
    z: S,
)
    requires
        forall|k: int| 0 <= k < p.len() ==> inverse_pair::<S, T>((#[trigger] p[k]).0),
        advances(p, x, y),
        advances(reversal(p), y, z),
    ensures
        z == x,
    decreases p.len(),
{
    if p.len() == 0 {
        assert(reversal(p) =~= Seq::empty());
    } else {
        let q = p.drop_last();
        let last = p.last();
        let back = (last.0, last.1.flipped());
        let before = choose|mid: S|
            #![trigger applies(p.last(), mid, y, Ok(()))]
            advances(p.drop_last(), x, mid) && applies(p.last(), mid, y, Ok(()));
        assert(reversal(p) =~= seq![back] + reversal(q));
        let after = lemma_advances_split(seq![back], reversal(q), y, z);
        assert(seq![back].drop_last() =~= Seq::empty());
        assert(seq![back].last() == back);
        assert(seq![back].len() > 0);
        let start = choose|mid: S|
            #![trigger applies(seq![back].last(), mid, after, Ok(()))]
            advances(seq![back].drop_last(), y, mid) && applies(
                seq![back].last(),
                mid,
                after,
                Ok(()),
            );
        assert(start == y);
        assert(applies(back, y, after, Ok(())));
        assert(inverse_pair::<S, T>(p[p.len() - 1].0));
        assert(after == before);
        assert forall|k: int| 0 <= k < q.len() implies inverse_pair::<S, T>(
            (#[trigger] q[k]).0,
        ) by {
            assert(q[k] == p[k]);
        }
        lemma_reversal_undoes(q, x, before, z);
    }
}

/// The inverse law: in a chain whose transforms undo each other, a run of
/// the plan from `a` to `b` followed by a run of the plan from `b` to `a`
/// gives back the state.
pub proof fn lemma_round_trip_restores<S, T: Transform<S>>(
    s: Seq<VersionStep<T>>,
    a: VersionDescriptor,
    b: VersionDescriptor,
    x: S,
    y: S,
    z: S,
)
    requires
        well_formed(s),
        holds(s, a),
        holds(s, b),
        forall|i: int| 0 <= i < s.len() ==> inverse_pair::<S, T>(#[trigger] s[i]),
        route(s, a, b) matches Ok(there) && advances(there, x, y),
        route(s, b, a) matches Ok(back) && advances(back, y, z),
    ensures
        z == x,
{
    lemma_plan_back_is_reversal(s, a, b);
    let i = index_of(s, a);
    let j = index_of(s, b);
    assert(0 <= i < s.len() && s[i].version == a);
    assert(0 <= j < s.len() && s[j].version == b);
    lemma_places_follow_versions(s, i, j);
    let p = route(s, a, b)->Ok_0;
    assert forall|k: int| 0 <= k < p.len() implies inverse_pair::<S, T>((#[trigger] p[k]).0) by {
        if i < j {
            assert(p[k].0 == s[i + 1 + k]);
        } else {
            assert(p[k].0 == s[i - k]);
        }
    }
    lemma_reversal_undoes(p, x, y, z);
}

} // verus!
