//! What a prover sends: a transcript, answered by the shared challenges.
use vstd::prelude::*;
use vstd::arithmetic::power2::*;
use crate::field::{Fr, tables, values};
use crate::group::points;
use crate::kzg::{Mkzg, MkzgProveParams, commit_of};
use crate::poly::MlPoly;
use crate::sumcheck::{Gate, gate_fits, messages, prove_rounds, same_len, values_at};
use crate::util::{Proof, RandomOracle, Tape};

verus! {

/// What was sent so far, and the challenges that are left.
pub ghost struct Sent {
    pub u: Seq<int>,
    pub f: Seq<int>,
    pub g: Seq<int>,
    pub ch: Seq<int>,
}

/// The state of a transcript and challenges.
pub open spec fn sent(tape: Tape, ch: Seq<int>) -> Sent {
    Sent { u: tape.u, f: tape.f, g: tape.g, ch }
}

/// The challenges are the same, whatever is left of them.
pub open spec fn same_source(a: RandomOracle, b: RandomOracle) -> bool {
    &&& a.all() == b.all()
    &&& a.all_ints() == b.all_ints()
    &&& a.ints() == b.ints()
}

/// Sends a word.
pub open spec fn send_u(s: Sent, x: int) -> Sent {
    Sent { u: s.u.push(x), ..s }
}

/// Sends field elements.
pub open spec fn send_fs(s: Sent, v: Seq<int>) -> Sent {
    Sent { f: s.f + v, ..s }
}

/// Sends the number of some points, and the points.
pub open spec fn send_points(s: Sent, v: Seq<int>) -> Sent {
    Sent { u: s.u.push(v.len() as int), g: s.g + v, ..s }
}

/// Sends the number of some field elements, and the elements.
pub open spec fn send_list(s: Sent, v: Seq<int>) -> Sent {
    Sent { u: s.u.push(v.len() as int), f: s.f + v, ..s }
}

/// Sends the commitment to a polynomial.
pub open spec fn send_commit(s: Sent, srs: Seq<int>, f: Seq<int>) -> Sent {
    send_points(s, commit_of(srs, f))
}

/// The state after `n` challenges were drawn.
pub open spec fn drawn(s: Sent, n: int) -> Sent {
    Sent { ch: s.ch.skip(n), ..s }
}

/// Runs the rounds of a sumcheck: the challenges that come back are the first `nv`
/// that are left.
pub open spec fn send_rounds(
    s: Sent,
    g: Gate,
    coins: Seq<int>,
    tabs: Seq<Seq<int>>,
    len: int,
    degree: int,
    nv: int,
) -> Sent {
    Sent {
        f: s.f + messages(g, coins, tabs, len, degree, s.ch.take(nv)),
        ch: s.ch.skip(nv),
        ..s
    }
}

/// Commits to a polynomial and sends the commitment.
pub fn commit_send(
    srs: &MkzgProveParams,
    poly: &MlPoly,
    proof: &mut Proof,
)
    requires
        srs@.len() > 0,
        poly.0.len() + srs@.len() <= usize::MAX,
    ensures
        final(proof)@ == (Tape {
            u: old(proof)@.u.push(commit_of(srs@, poly@).len() as int),
            g: old(proof)@.g + commit_of(srs@, poly@),
            ..old(proof)@
        }),
{
    let c = Mkzg::commit(srs, poly);
    assert(c@.len() == c.0.len());
    proof.push_u(c.0.len());
    proof.push_gs(c.0.as_slice());
}

/// Runs the rounds of a sumcheck.
pub fn rounds_send(
    gate: &Gate,
    coins: &Vec<Fr>,
    tabs: Vec<Vec<Fr>>,
    degree: usize,
    nv: usize,
    proof: &mut Proof,
    ro: &mut RandomOracle,
) -> (out: (Vec<Fr>, Vec<Fr>))
    requires
        tabs.len() > 0,
        0 < tabs[0].len() <= pow2(nv as nat),
        tabs[0].len() < usize::MAX,
        same_len(tables(tabs@), tabs[0].len() as int),
        gate_fits(*gate, tabs.len() as nat, coins.len() as nat),
        degree < usize::MAX,
        old(ro)@.len() >= nv,
    ensures
        values(out.0@) == old(ro)@.take(nv as int),
        values(out.1@) == values_at(tables(tabs@), values(out.0@)),
        out.0.len() == nv,
        out.1.len() == tabs.len(),
        same_source(*final(ro), *old(ro)),
        sent(final(proof)@, final(ro)@) == send_rounds(
            sent(old(proof)@, old(ro)@),
            *gate,
            values(coins@),
            tables(tabs@),
            tabs[0].len() as int,
            degree as int,
            nv as int,
        ),
{
    let out = prove_rounds(gate, coins, tabs, degree, nv, proof, ro);
    assert(values(out.0@).len() == out.0.len());
    assert(values(out.1@).len() == out.1.len());
    out
}

} // verus!
