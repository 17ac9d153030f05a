//! What an accepted certificate shows through the claim that its joint opening leaves.
use vstd::prelude::*;
use crate::channel::{State, challenges};
use crate::field::cong;
use crate::kzg::VerParams;
use crate::opened::{ends_right, joint_slip, law_opened};
use crate::poly::mle;
use crate::sparse_verifier::VerAcc;
use super::accepted::boundaries_hold;
use super::certificate::{
    claimed_boundaries, num_boundaries, trimmed_ver, vectors_fit, verify_checks, verify_equalities,
    verify_rules,
};
use super::relation::{NUM_CHALLENGES, Tab, equalities_of, zero_checks_of};
use super::shown::{
    bound_to, check_shown, equality_shown, law_certified, rules_end, rules_middle, rules_start,
};
use super::witness::{ProfileView, profile_fits, tab_ok};

verus! {

/// All the claims of a certificate.
pub open spec fn all_claims(g: spec_fn(Tab) -> Seq<int>, p: ProfileView, st: State) -> VerAcc {
    claimed_boundaries(rules_end(g, p, st).acc, g, p, num_boundaries())
}

/// The polynomials that claims are about: the vector of each commitment.
pub open spec fn committed_to(
    f: spec_fn(Tab) -> Seq<int>,
    g: spec_fn(Tab) -> Seq<int>,
    acc: VerAcc,
    polys: Seq<Seq<int>>,
) -> bool {
    &&& polys.len() == acc.commits.len()
    &&& forall|i: int, t: Tab|
        0 <= i < acc.commits.len() && t.committed() && tab_ok(t) && #[trigger] acc.commits[i]
            == #[trigger] g(t) ==> polys[i] == f(t)
}

/// An accepted certificate whose joint opening ends in a right claim on the vectors that its
/// commitments are to shows that the counters begin and end where the profile says, that each
/// zero check holds and that the two sides of each equality agree; unless a challenge slips,
/// in the joint opening or before it.
pub proof fn law_certified_opened(
    vp: VerParams,
    f: spec_fn(Tab) -> Seq<int>,
    g: spec_fn(Tab) -> Seq<int>,
    p: ProfileView,
    st: State,
    polys: Seq<Seq<int>>,
)
    requires
        profile_fits(p),
        vectors_fit(f, p),
        verify_rules(vp, g, p, st).ok,
        0 < polys.len(),
        2 * polys.len() <= usize::MAX,
        committed_to(f, g, all_claims(g, p, st), polys),
        ends_right(polys, all_claims(g, p, st), rules_end(g, p, st).st),
    ensures
        ({
            let xs = zero_checks_of(p);
            let es = equalities_of(p);
            let chals = challenges(st, NUM_CHALLENGES as int).1;
            ||| joint_slip(polys, all_claims(g, p, st), rules_end(g, p, st).st)
            ||| {
                &&& boundaries_hold(f, p)
                &&& forall|k: int|
                    0 <= k < xs.len() ==> check_shown(
                        f,
                        #[trigger] xs[k],
                        chals,
                        verify_checks(g, xs, chals, rules_start(st), k).st,
                    )
                &&& forall|k: int|
                    0 <= k < es.len() ==> equality_shown(
                        f,
                        g,
                        #[trigger] es[k],
                        verify_equalities(g, es, rules_middle(g, p, st), k),
                    )
            }
        }),
{
    reveal(verify_rules);
    let all = all_claims(g, p, st);
    let v2 = rules_end(g, p, st);
    law_opened(trimmed_ver(vp, p), polys, all, v2.st);
    if !joint_slip(polys, all, v2.st) {
        assert forall|i: int, t: Tab|
            0 <= i < all.commits.len() && t.committed() && tab_ok(t) && #[trigger] all.commits[i]
                == #[trigger] g(t) implies cong(all.values[i], mle(f(t), all.points[i])) by {
            assert(polys[i] == f(t));
            assert(cong(all.values[i], mle(polys[i], all.points[i])));
        }
        assert(bound_to(f, g, all));
        law_certified(vp, f, g, p, st);
    }
}

} // verus!
