//! Claims of a verifier on the polynomials that a prover holds.
use vstd::prelude::*;
use vstd::arithmetic::power2::*;
use crate::batch_openings::{claims_hold, law_batch_open};
use crate::field::cong;
use crate::kzg::{batch_open_of, batch_openable, batch_vars, commit_of, srs_of, ver_params_of};
use crate::poly::mle;
use crate::replay::{extends, lemma_read_list, lemma_read_points, rest_of};
use crate::sparse::{Acc, acc_push, send_batch};
use crate::sparse_verifier::{VerAcc, ver_push, verify_batch};
use crate::speaker::{Sent, drawn, send_list, send_points};
use crate::sumcheck::log2_ceil;

verus! {

/// The claims of a verifier are right: they are on commitments to the polynomials that
/// the prover holds, at the same points, and with the values there.
pub open spec fn claims_match(srs: Seq<int>, a: Acc, v: VerAcc) -> bool {
    &&& v.points == a.points
    &&& v.commits.len() == a.polys.len()
    &&& claims_hold(a.polys, a.points, v.values)
    &&& forall|i: int|
        0 <= i < a.polys.len() ==> #[trigger] v.commits[i] == commit_of(srs, a.polys[i])
}

/// One more right claim.
pub proof fn lemma_claims_push(
    srs: Seq<int>,
    a: Acc,
    v: VerAcc,
    f: Seq<int>,
    p: Seq<int>,
    x: int,
)
    requires
        claims_match(srs, a, v),
        0 < f.len(),
        log2_ceil(f.len() as int) <= p.len(),
        cong(x, mle(f, p)),
    ensures
        claims_match(srs, acc_push(a, f, p), ver_push(v, commit_of(srs, f), p, x)),
{
    let b = acc_push(a, f, p);
    let w = ver_push(v, commit_of(srs, f), p, x);
    let n = a.polys.len() as int;
    assert forall|i: int| 0 <= i < b.polys.len() implies {
        &&& 0 < (#[trigger] b.polys[i]).len()
        &&& log2_ceil(b.polys[i].len() as int) <= b.points[i].len()
        &&& cong(w.values[i], mle(b.polys[i], b.points[i]))
    } by {
        if i < n {
            assert(b.polys[i] == a.polys[i]);
            assert(0 < a.polys[i].len());
        }
    }
    assert forall|i: int| 0 <= i < b.polys.len() implies #[trigger] w.commits[i] == commit_of(
        srs,
        b.polys[i],
    ) by {
        if i < n {
            assert(w.commits[i] == v.commits[i]);
        }
    }
}

/// The joint opening of right claims is accepted.
pub proof fn lemma_batch_accepted(
    g: int,
    h: int,
    tau: Seq<int>,
    a: Acc,
    v: VerAcc,
    full: Sent,
    s: Sent,
)
    requires
        a.polys.len() > 0,
        2 * a.polys.len() <= usize::MAX,
        claims_match(srs_of(g, tau), a, v),
        batch_openable(srs_of(g, tau), a.polys, a.points, s.ch),
        extends(full, send_batch(srs_of(g, tau), a, s)),
    ensures
        extends(full, s),
        verify_batch(ver_params_of(g, h, tau), v, rest_of(full, s)) == rest_of(
            full,
            send_batch(srs_of(g, tau), a, s),
        ),
{
    let srs = srs_of(g, tau);
    let n = 1 + batch_vars(a.polys, a.points, a.polys.len() as int);
    let (proof, sc) = batch_open_of(srs, a.polys, a.points, s.ch);
    let s1 = send_points(s, proof);
    let s2 = send_list(s1, sc);
    let end = send_batch(srs, a, s);
    assert(end == drawn(s2, n));
    assert(extends(full, s2));
    lemma_read_list(full, s1, sc);
    lemma_read_points(full, s, proof);
    lemma_srs_log(g, tau);
    law_batch_open(g, h, tau, a.polys, a.points, v.values, v.commits, rest_of(full, s2));
}

/// As many parameters as two to the number of secrets.
proof fn lemma_srs_log(g: int, tau: Seq<int>)
    ensures
        crate::kzg::log_of(srs_of(g, tau).len() as int) == tau.len(),
{
    lemma_log_of_pow2(tau.len());
}

proof fn lemma_log_of_pow2(n: nat)
    ensures
        crate::kzg::log_of(pow2(n) as int) == n,
    decreases n,
{
    crate::sums::lemma_pow2_step(0);
    if n > 0 {
        lemma_log_of_pow2((n - 1) as nat);
        crate::sums::lemma_pow2_step((n - 1) as nat);
    }
}

} // verus!
