//! The arguments that a certificate is made of: sums weighted by `eq`, and sums of
//! fractions.
use vstd::prelude::*;
use vstd::arithmetic::power2::*;
use crate::channel::{Channel, State, challenge, read_f, read_fs, require};
use crate::field::{Fr, cong, copied, inverse_of, invertible, tables, values};
use crate::kzg::{evens, odds};
use crate::logup::lemma_log2_pow2;
use crate::poly::{MlPoly, eq_points, mle};
use crate::sparse::eq_table;
use crate::sparse_prover::{eq_table_exec, taken};
use crate::speaker::{Sent, drawn, rounds_send, same_source, send_fs, send_rounds, sent};
use crate::sumcheck::{
    Gate, coin, gate_fits, gate_value, lemma_log2_ceil, lemma_log2_fits, log2_ceil, log2_ceil_exec,
    plus, same_len, times, values_at, var, verifier_sumcheck, verify_rounds,
};
use crate::sums::{lemma_pow2_mono, lemma_pow2_step, sum_to, two_pow};
use crate::util::{Proof, RandomOracle, batch_inverse};

verus! {

/// The least power of two, from two on, that is at least `n`.
pub fn pad_len(n: usize) -> (out: usize)
    requires
        n <= crate::channel::longest(),
    ensures
        out == pow2(log2_ceil(n as int)),
        n <= out,
{
    proof {
        lemma_log2_fits(n as int);
        lemma_log2_ceil(n as int);
    }
    two_pow(log2_ceil_exec(n))
}

/// A sequence with a filler up to the given length.
pub open spec fn filled_to(v: Seq<int>, len: int, filler: int) -> Seq<int> {
    v + Seq::new((len - v.len()) as nat, |i: int| filler)
}

/// A vector with a filler up to the given length.
pub fn pad_to(v: Vec<Fr>, len: usize, filler: Fr) -> (out: Vec<Fr>)
    requires
        v.len() <= len,
    ensures
        values(out@) == filled_to(values(v@), len as int, filler@),
        out.len() == len,
{
    let mut out = v;
    let from: usize = out.len();
    let ghost start = values(v@);
    assert(values(out@) =~= filled_to(start, from as int, filler@));
    for k in from..len
        invariant
            out.len() == k,
            start.len() == from,
            from <= k <= len,
            values(out@) == filled_to(start, k as int, filler@),
    {
        let ghost before = values(out@);
        out.push(filler);
        assert(values(out@) =~= before.push(filler@));
        assert(values(out@) =~= filled_to(start, k + 1, filler@));
    }
    out
}

/// An expression times one more table, the last one.
pub open spec fn weighted_gate(g: Gate, n: usize) -> Gate {
    Gate::Mul(Box::new(g), Box::new(Gate::Var(n)))
}

/// Sends a sum of an expression weighted by `eq`: gives the state and the point.
#[verifier::opaque]
pub open spec fn send_eq_sum(
    s: Sent,
    eq_point: Seq<int>,
    tabs: Seq<Seq<int>>,
    degree: int,
    g: Gate,
    coins: Seq<int>,
) -> (Sent, Seq<int>) {
    let nv = eq_point.len() as int;
    let all = tabs.push(eq_table(eq_point));
    let point = s.ch.take(nv);
    let s1 = send_rounds(
        s,
        weighted_gate(g, tabs.len() as usize),
        coins,
        all,
        pow2(nv as nat) as int,
        degree,
        nv,
    );
    (send_fs(s1, values_at(tabs, point)), point)
}

/// Checks a sum of an expression weighted by `eq`: gives the state, the point and
/// the values of the tables there.
#[verifier::opaque]
pub open spec fn verify_eq_sum(
    st: State,
    eq_point: Seq<int>,
    claim: int,
    degree: int,
    num_tables: int,
    g: Gate,
    coins: Seq<int>,
) -> (State, Seq<int>, Seq<int>) {
    let nv = eq_point.len() as int;
    let (point, y, st1) = verify_rounds(claim, nv, degree, st);
    let (st2, v) = read_fs(st1, num_tables);
    (
        require(st2, cong(y, eq_points(eq_point, point, nv) * gate_value(g, v, coins))),
        point,
        v,
    )
}

/// Proves a sum of an expression weighted by `eq`: gives the point, and the values
/// of the tables there.
pub fn eq_sumcheck_prove(
    eq_point: &Vec<Fr>,
    tabs: Vec<Vec<Fr>>,
    degree: usize,
    gate: Gate,
    coins: &Vec<Fr>,
    proof: &mut Proof,
    ro: &mut RandomOracle,
) -> (out: (Vec<Fr>, Vec<Fr>))
    requires
        pow2(eq_point.len() as nat) < usize::MAX,
        same_len(tables(tabs@), pow2(eq_point.len() as nat) as int),
        tabs.len() < usize::MAX,
        gate_fits(gate, tabs.len() as nat, coins.len() as nat),
        degree < usize::MAX,
        old(ro)@.len() >= eq_point.len(),
    ensures
        (sent(final(proof)@, final(ro)@), values(out.0@)) == send_eq_sum(
            sent(old(proof)@, old(ro)@),
            values(eq_point@),
            tables(tabs@),
            degree as int,
            gate,
            values(coins@),
        ),
        values(out.1@) == values_at(tables(tabs@), values(out.0@)),
        out.0.len() == eq_point.len(),
        out.1.len() == tabs.len(),
        final(ro)@ == old(ro)@.skip(eq_point.len() as int),
        same_source(*final(ro), *old(ro)),
{
    reveal(send_eq_sum);
    let nv: usize = eq_point.len();
    let n: usize = tabs.len();
    let ghost tv = tables(tabs@);
    let ghost len = pow2(nv as nat) as int;
    assert(values(eq_point@).len() == nv);
    let eq = eq_table_exec(eq_point);
    let mut all = tabs;
    all.push(eq);
    let ghost av = tv.push(eq_table(values(eq_point@)));
    assert(tables(all@) =~= av);
    proof {
        lemma_pow2_mono(0, nv as nat);
        lemma_pow2_step(0);
        assert(same_len(tables(all@), len)) by {
            assert forall|t: int| 0 <= t < av.len() implies (#[trigger] av[t]).len() == len by {
                if t < n {
                    assert(av[t] == tv[t]);
                }
            }
        }
        assert(tables(all@)[0].len() == all[0].len());
        lemma_gate_fits_more(gate, n as nat, coins.len() as nat);
        reveal_with_fuel(gate_fits, 2);
    }
    let g = times(gate, var(n));
    let done = rounds_send(&g, coins, all, degree, nv, proof, ro);
    let vals = taken(&done.1, n);
    assert(values(vals@) =~= values_at(tv, values(done.0@)));
    proof.push_f(vals.as_slice());
    (done.0, vals)
}

/// An expression that reads no table past `n` reads none past `n + 1`.
pub proof fn lemma_gate_fits_more(g: Gate, n: nat, m: nat)
    requires
        gate_fits(g, n, m),
    ensures
        gate_fits(g, n + 1, m),
    decreases g,
{
    match g {
        Gate::Add(a, b) => {
            lemma_gate_fits_more(*a, n, m);
            lemma_gate_fits_more(*b, n, m);
        },
        Gate::Sub(a, b) => {
            lemma_gate_fits_more(*a, n, m);
            lemma_gate_fits_more(*b, n, m);
        },
        Gate::Mul(a, b) => {
            lemma_gate_fits_more(*a, n, m);
            lemma_gate_fits_more(*b, n, m);
        },
        _ => {},
    }
}

/// Checks a sum of an expression weighted by `eq`.
pub fn eq_sumcheck_verify(
    eq_point: &Vec<Fr>,
    claim: Fr,
    degree: usize,
    num_tables: usize,
    gate: &Gate,
    coins: &Vec<Fr>,
    chan: &mut Channel,
) -> (out: (Vec<Fr>, Vec<Fr>))
    requires
        gate_fits(*gate, num_tables as nat, coins.len() as nat),
        1 <= degree < usize::MAX,
    ensures
        (final(chan)@, values(out.0@), values(out.1@)) == verify_eq_sum(
            old(chan)@,
            values(eq_point@),
            claim@,
            degree as int,
            num_tables as int,
            *gate,
            values(coins@),
        ),
        out.0.len() == eq_point.len(),
        out.1.len() == num_tables,
        final(chan).same_oracle(old(chan)),
{
    reveal(verify_eq_sum);
    let nv: usize = eq_point.len();
    assert(values(eq_point@).len() == nv);
    let (point, y) = verifier_sumcheck(claim, nv, degree, chan);
    let v = chan.read_fs(num_tables);
    let eq = MlPoly::eval_eq(eq_point, &point);
    chan.require(y == eq * gate.eval(&v, coins));
    (point, v)
}

/// The numerators of the sums of neighbouring fractions.
pub open spec fn up_num(p: Seq<int>, q: Seq<int>) -> Seq<int> {
    Seq::new(
        (p.len() / 2) as nat,
        |i: int| p[2 * i] * q[2 * i + 1] + p[2 * i + 1] * q[2 * i],
    )
}

/// The denominators of the sums of neighbouring fractions.
pub open spec fn up_den(q: Seq<int>) -> Seq<int> {
    Seq::new((q.len() / 2) as nat, |i: int| q[2 * i] * q[2 * i + 1])
}

/// The fractions, `d` levels above the leaves.
pub open spec fn level(p: Seq<int>, q: Seq<int>, d: int) -> (Seq<int>, Seq<int>)
    decreases d,
{
    if d <= 0 {
        (p, q)
    } else {
        let (a, b) = level(p, q, d - 1);
        (up_num(a, b), up_den(b))
    }
}

/// The numerator of the sum of two fractions plus a coin times its denominator,
/// weighted by `eq`.
pub open spec fn fraction_gate() -> Gate {
    Gate::Mul(
        Box::new(
            Gate::Add(
                Box::new(
                    Gate::Add(
                        Box::new(Gate::Mul(Box::new(Gate::Var(0)), Box::new(Gate::Var(3)))),
                        Box::new(Gate::Mul(Box::new(Gate::Var(1)), Box::new(Gate::Var(2)))),
                    ),
                ),
                Box::new(
                    Gate::Mul(
                        Box::new(Gate::Coin(0)),
                        Box::new(Gate::Mul(Box::new(Gate::Var(2)), Box::new(Gate::Var(3)))),
                    ),
                ),
            ),
        ),
        Box::new(Gate::Var(4)),
    )
}

fn fraction_gate_exec() -> (out: Gate)
    ensures
        out == fraction_gate(),
        gate_fits(out, 5, 1),
{
    reveal_with_fuel(gate_fits, 6);
    times(
        plus(
            plus(times(var(0), var(3)), times(var(1), var(2))),
            times(coin(0), times(var(2), var(3))),
        ),
        var(4),
    )
}

/// The tables of one layer: the even and odd numerators, the even and odd
/// denominators, and `eq`.
pub open spec fn layer_tabs(p: Seq<int>, q: Seq<int>, point: Seq<int>) -> Seq<Seq<int>> {
    seq![evens(p), odds(p), evens(q), odds(q), eq_table(point)]
}

/// Sends one layer: gives the state and the point at the layer below.
#[verifier::opaque]
pub open spec fn send_layer(p: Seq<int>, q: Seq<int>, point: Seq<int>, s: Sent) -> (
    Sent,
    Seq<int>,
) {
    let k = point.len() as int;
    let lambda = s.ch[0];
    let s1 = drawn(s, 1);
    let tabs = layer_tabs(p, q, point);
    let x = s1.ch.take(k);
    let s2 = send_rounds(s1, fraction_gate(), seq![lambda], tabs, pow2(k as nat) as int, 3, k);
    let s3 = send_fs(s2, values_at(tabs, x).take(4));
    (drawn(s3, 1), seq![s3.ch[0]] + x)
}

/// Sends the layers from layer `k` on, for fractions with `n` layers.
pub open spec fn send_layers(
    p: Seq<int>,
    q: Seq<int>,
    n: int,
    point: Seq<int>,
    s: Sent,
) -> (Sent, Seq<int>)
    decreases n - point.len(),
{
    let k = point.len() as int;
    if k >= n {
        (s, point)
    } else {
        let (a, b) = level(p, q, n - k - 1);
        let (s1, next) = send_layer(a, b, point, s);
        if k < next.len() <= n {
            send_layers(p, q, n, next, s1)
        } else {
            (s1, next)
        }
    }
}

/// The sum of fractions.
pub open spec fn fraction_sum(p: Seq<int>, q: Seq<int>) -> int {
    sum_to(p.len() as int, |i: int| p[i] * inverse_of(q[i]))
}

/// Sends a sum of fractions: gives the state and the point of the leaves.
#[verifier::opaque]
pub open spec fn send_fractions(p: Seq<int>, q: Seq<int>, n: int, s: Sent) -> (Sent, Seq<int>) {
    let (a, b) = level(p, q, n);
    let s1 = send_fs(send_fs(s, seq![fraction_sum(p, q)]), seq![a[0], b[0]]);
    send_layers(p, q, n, Seq::empty(), s1)
}

/// The number of challenges that `n` layers from layer `k` on draw.
pub open spec fn layer_draws(n: int, k: int) -> int
    decreases n - k,
{
    if k >= n {
        0
    } else {
        2 + k + layer_draws(n, k + 1)
    }
}

/// What a layer leaves behind: the point, and the claimed numerator and
/// denominator there.
pub ghost struct LayerClaim {
    pub point: Seq<int>,
    pub p: int,
    pub q: int,
}

/// Checks one layer.
#[verifier::opaque]
pub open spec fn verify_layer(c: LayerClaim, st: State) -> (State, LayerClaim) {
    let k = c.point.len() as int;
    let (st1, lambda) = challenge(st);
    let (x, y, st2) = verify_rounds(c.p + lambda * c.q, k, 3, st1);
    let (st3, v) = read_fs(st2, 4);
    let st4 = require(
        st3,
        cong(
            y,
            (v[0] * v[3] + v[1] * v[2] + lambda * (v[2] * v[3])) * eq_points(c.point, x, k),
        ),
    );
    let (st5, mu) = challenge(st4);
    (
        st5,
        LayerClaim {
            point: seq![mu] + x,
            p: v[0] + mu * (v[1] - v[0]),
            q: v[2] + mu * (v[3] - v[2]),
        },
    )
}

/// Checks `n` layers.
pub open spec fn verify_layers(n: int, c: LayerClaim, st: State) -> (State, LayerClaim)
    decreases n,
{
    if n <= 0 {
        (st, c)
    } else {
        let (st1, next) = verify_layer(c, st);
        verify_layers(n - 1, next, st1)
    }
}

/// Checks a sum of fractions: gives the state, the sum, and the claim on the
/// leaves.
#[verifier::opaque]
pub open spec fn verify_fractions(n: int, st: State) -> (State, int, LayerClaim) {
    let (st1, sum) = read_f(st);
    let (st2, r) = read_fs(st1, 2);
    let st3 = require(st2, cong(r[0], sum * r[1]) && !cong(r[1], 0));
    let (st4, c) = verify_layers(n, LayerClaim { point: Seq::empty(), p: r[0], q: r[1] }, st3);
    (st4, sum, c)
}

pub proof fn lemma_level_len(p: Seq<int>, q: Seq<int>, n: nat, d: int)
    requires
        p.len() == pow2(n),
        q.len() == pow2(n),
        0 <= d <= n,
    ensures
        level(p, q, d).0.len() == pow2((n - d) as nat),
        level(p, q, d).1.len() == pow2((n - d) as nat),
    decreases d,
{
    if d > 0 {
        lemma_level_len(p, q, n, d - 1);
        lemma_pow2_step((n - d) as nat);
    }
}

fn up_exec(p: &Vec<Fr>, q: &Vec<Fr>) -> (out: (Vec<Fr>, Vec<Fr>))
    requires
        p.len() == q.len(),
    ensures
        values(out.0@) == up_num(values(p@), values(q@)),
        values(out.1@) == up_den(values(q@)),
        out.0.len() == p.len() / 2,
        out.1.len() == p.len() / 2,
{
    let ghost pv = values(p@);
    let ghost qv = values(q@);
    let half: usize = p.len() / 2;
    let mut a: Vec<Fr> = Vec::new();
    let mut b: Vec<Fr> = Vec::new();
    for i in 0..half
        invariant
            half == p.len() / 2,
            p.len() == q.len(),
            pv == values(p@),
            qv == values(q@),
            a.len() == i,
            b.len() == i,
            forall|j: int| 0 <= j < i ==> (#[trigger] a[j])@ == up_num(pv, qv)[j],
            forall|j: int| 0 <= j < i ==> (#[trigger] b[j])@ == up_den(qv)[j],
    {
        a.push(p[2 * i] * q[2 * i + 1] + p[2 * i + 1] * q[2 * i]);
        b.push(q[2 * i] * q[2 * i + 1]);
    }
    assert(values(a@) =~= up_num(pv, qv));
    assert(values(b@) =~= up_den(qv));
    (a, b)
}

fn halves(v: &Vec<Fr>) -> (out: (Vec<Fr>, Vec<Fr>))
    ensures
        values(out.0@) == evens(values(v@)),
        values(out.1@) == odds(values(v@)),
        out.0.len() == v.len() / 2,
        out.1.len() == v.len() / 2,
{
    let ghost vv = values(v@);
    let half: usize = v.len() / 2;
    let mut a: Vec<Fr> = Vec::new();
    let mut b: Vec<Fr> = Vec::new();
    for i in 0..half
        invariant
            half == v.len() / 2,
            vv == values(v@),
            a.len() == i,
            b.len() == i,
            forall|j: int| 0 <= j < i ==> (#[trigger] a[j])@ == evens(vv)[j],
            forall|j: int| 0 <= j < i ==> (#[trigger] b[j])@ == odds(vv)[j],
    {
        a.push(v[2 * i]);
        b.push(v[2 * i + 1]);
    }
    assert(values(a@) =~= evens(vv));
    assert(values(b@) =~= odds(vv));
    (a, b)
}

fn layer_exec(
    p: &Vec<Fr>,
    q: &Vec<Fr>,
    point: &Vec<Fr>,
    proof: &mut Proof,
    ro: &mut RandomOracle,
) -> (next: Vec<Fr>)
    requires
        p.len() == q.len(),
        p.len() == 2 * pow2(point.len() as nat),
        old(ro)@.len() >= 2 + point.len(),
    ensures
        (sent(final(proof)@, final(ro)@), values(next@)) == send_layer(
            values(p@),
            values(q@),
            values(point@),
            sent(old(proof)@, old(ro)@),
        ),
        next.len() == point.len() + 1,
        final(ro)@ == old(ro)@.skip(2 + point.len()),
        same_source(*final(ro), *old(ro)),
{
    reveal(send_layer);
    let k: usize = point.len();
    let ghost s = sent(proof@, ro@);
    let ghost pv = values(point@);
    assert(pv.len() == k);
    let lambda = ro.next_field();
    let ps = halves(p);
    let qs = halves(q);
    let eq = eq_table_exec(point);
    let mut coins: Vec<Fr> = Vec::new();
    coins.push(lambda);
    assert(values(coins@) =~= seq![lambda@]);
    let mut tabs: Vec<Vec<Fr>> = Vec::new();
    tabs.push(ps.0);
    tabs.push(ps.1);
    tabs.push(qs.0);
    tabs.push(qs.1);
    tabs.push(eq);
    let ghost tv = layer_tabs(values(p@), values(q@), pv);
    assert(tables(tabs@) =~= tv);
    proof {
        lemma_pow2_mono(0, k as nat);
        lemma_pow2_step(0);
        assert(tabs[0].len() == pow2(k as nat));
    }
    assert(drawn(s, 1).ch =~= ro@);
    let done = rounds_send(&fraction_gate_exec(), &coins, tabs, 3, k, proof, ro);
    proof.push_f(taken(&done.1, 4).as_slice());
    let mu = ro.next_field();
    let mut next: Vec<Fr> = Vec::new();
    next.push(mu);
    let ghost x = values(done.0@);
    assert(values(next@) =~= seq![mu@] + x.take(0));
    for i in 0..k
        invariant
            k == done.0.len(),
            x == values(done.0@),
            next.len() == i + 1,
            values(next@) == seq![mu@] + x.take(i as int),
    {
        let ghost before = values(next@);
        next.push(done.0[i]);
        assert(values(next@) =~= before.push(x[i as int]));
        assert(values(next@) =~= seq![mu@] + x.take(i + 1));
    }
    assert(x.take(k as int) =~= x);
    assert(ro@ =~= old(ro)@.skip(2 + k));
    next
}

proof fn lemma_layer_draws(n: int, k: int)
    requires
        0 <= k <= n,
    ensures
        layer_draws(n, k) >= 0,
        k < n ==> layer_draws(n, k) >= 2 + k,
    decreases n - k,
{
    if k < n {
        lemma_layer_draws(n, k + 1);
    }
}

/// Proves a sum of fractions, whose value was already sent: gives the point of the
/// leaves.
fn gkr_fractional_sum_prove(
    num: Vec<Fr>,
    den: Vec<Fr>,
    n: usize,
    proof: &mut Proof,
    ro: &mut RandomOracle,
) -> (point: Vec<Fr>)
    requires
        num.len() == pow2(n as nat),
        den.len() == pow2(n as nat),
        old(ro)@.len() >= layer_draws(n as int, 0),
    ensures
        ({
            let (a, b) = level(values(num@), values(den@), n as int);
            let s = send_fs(sent(old(proof)@, old(ro)@), seq![a[0], b[0]]);
            (sent(final(proof)@, final(ro)@), values(point@)) == send_layers(
                values(num@),
                values(den@),
                n as int,
                Seq::empty(),
                s,
            )
        }),
        point.len() == n,
        final(ro)@ == old(ro)@.skip(layer_draws(n as int, 0)),
        same_source(*final(ro), *old(ro)),
{
    let ghost p = values(num@);
    let ghost q = values(den@);
    let ghost nn = n as int;
    let ghost start = ro@;
    let mut nums: Vec<Vec<Fr>> = Vec::new();
    let mut dens: Vec<Vec<Fr>> = Vec::new();
    nums.push(num);
    dens.push(den);
    for d in 0..n
        invariant
            nn == n,
            p.len() == pow2(n as nat),
            q.len() == pow2(n as nat),
            nums.len() == d + 1,
            dens.len() == d + 1,
            forall|j: int| 0 <= j <= d ==> values((#[trigger] nums[j])@) == level(p, q, j).0,
            forall|j: int| 0 <= j <= d ==> values((#[trigger] dens[j])@) == level(p, q, j).1,
    {
        proof {
            lemma_level_len(p, q, n as nat, d as int);
            assert(values(nums[d as int]@).len() == nums[d as int].len());
            assert(values(dens[d as int]@).len() == dens[d as int].len());
        }
        let up = up_exec(&nums[d], &dens[d]);
        proof {
            assert(level(p, q, d + 1) == (
                up_num(level(p, q, d as int).0, level(p, q, d as int).1),
                up_den(level(p, q, d as int).1),
            ));
        }
        nums.push(up.0);
        dens.push(up.1);
    }
    proof {
        lemma_level_len(p, q, n as nat, nn);
        lemma_pow2_step(0);
        assert(values(nums[nn]@).len() == nums[nn].len());
        assert(values(dens[nn]@).len() == dens[nn].len());
    }
    let mut root: Vec<Fr> = Vec::new();
    root.push(nums[n][0]);
    root.push(dens[n][0]);
    assert(values(root@) =~= seq![level(p, q, nn).0[0], level(p, q, nn).1[0]]);
    proof.push_f(root.as_slice());
    let mut point: Vec<Fr> = Vec::new();
    assert(values(point@) =~= Seq::<int>::empty());
    let ghost goal = send_layers(p, q, nn, Seq::empty(), sent(proof@, ro@));
    assert(start.skip(0) =~= start);
    proof {
        lemma_layer_draws(nn, 0);
    }
    let ghost mut drew: int = 0;
    for k in 0..n
        invariant
            nn == n,
            p.len() == pow2(n as nat),
            q.len() == pow2(n as nat),
            nums.len() == n + 1,
            dens.len() == n + 1,
            forall|j: int| 0 <= j <= n ==> values((#[trigger] nums[j])@) == level(p, q, j).0,
            forall|j: int| 0 <= j <= n ==> values((#[trigger] dens[j])@) == level(p, q, j).1,
            point.len() == k,
            0 <= drew,
            drew + layer_draws(nn, k as int) == layer_draws(nn, 0),
            start.len() >= layer_draws(nn, 0),
            ro@ == start.skip(drew),
            same_source(*ro, *old(ro)),
            goal == send_layers(p, q, nn, values(point@), sent(proof@, ro@)),
    {
        let below: usize = n - k - 1;
        proof {
            lemma_level_len(p, q, n as nat, below as int);
            lemma_pow2_step(k as nat);
            lemma_layer_draws(nn, k as int);
            lemma_layer_draws(nn, k + 1);
            assert(values(nums[below as int]@).len() == nums[below as int].len());
            assert(values(dens[below as int]@).len() == dens[below as int].len());
            assert(values(point@).len() == k);
        }
        let ghost before = values(point@);
        let ghost sb = sent(proof@, ro@);
        let next = layer_exec(&nums[below], &dens[below], &point, proof, ro);
        proof {
            assert(values(next@).len() == next.len());
            assert(goal == send_layers(p, q, nn, values(next@), sent(proof@, ro@)));
            drew = drew + 2 + k;
            assert(ro@ =~= start.skip(drew));
        }
        point = next;
    }
    assert(values(point@).len() == n);
    point
}

/// Whether every element has an inverse.
pub fn all_have_inverses(v: &Vec<Fr>) -> (out: bool)
    ensures
        out == (forall|i: int| 0 <= i < v.len() ==> invertible((#[trigger] v[i])@)),
{
    for i in 0..v.len()
        invariant
            forall|j: int| 0 <= j < i ==> invertible((#[trigger] v[j])@),
    {
        if v[i].inverse().is_none() {
            return false;
        }
    }
    true
}

/// The logarithm of a power of two.
pub open spec fn leaf_log(len: int) -> nat {
    if len <= 1 {
        0
    } else {
        log2_ceil(len)
    }
}

/// The logarithm of a power of two is its exponent.
pub proof fn lemma_leaf_log(log: nat)
    ensures
        leaf_log(pow2(log) as int) == log,
{
    lemma_pow2_step(0);
    if log >= 1 {
        lemma_pow2_mono(1, log);
        lemma_log2_pow2(log);
    }
}

/// Proves a sum of fractions: gives the sum, the point of the leaves, and the
/// values of the numerators and denominators there.
pub fn frac_sum_prove(
    num: Vec<Fr>,
    den: Vec<Fr>,
    proof: &mut Proof,
    ro: &mut RandomOracle,
) -> (out: (Fr, Vec<Fr>, Fr, Fr))
    requires
        num.len() == den.len(),
        num.len() == pow2(leaf_log(num.len() as int)),
        forall|i: int| 0 <= i < den.len() ==> invertible((#[trigger] den[i])@),
        old(ro)@.len() >= layer_draws(leaf_log(num.len() as int) as int, 0),
    ensures
        out.0@ == fraction_sum(values(num@), values(den@)),
        (sent(final(proof)@, final(ro)@), values(out.1@)) == send_fractions(
            values(num@),
            values(den@),
            leaf_log(num.len() as int) as int,
            sent(old(proof)@, old(ro)@),
        ),
        out.2@ == mle(values(num@), values(out.1@)),
        out.3@ == mle(values(den@), values(out.1@)),
        out.1.len() == leaf_log(num.len() as int),
        final(ro)@ == old(ro)@.skip(layer_draws(leaf_log(num.len() as int) as int, 0)),
        same_source(*final(ro), *old(ro)),
{
    let n: usize = if num.len() <= 1 {
        0
    } else {
        log2_ceil_exec(num.len())
    };
    reveal(send_fractions);
    let ghost p = values(num@);
    let ghost q = values(den@);
    proof {
        lemma_pow2_mono(0, n as nat);
        lemma_pow2_step(0);
        assert(p.len() == num.len());
        assert(q.len() == den.len());
    }
    let mut inv = copied(&den);
    proof {
        assert forall|i: int| 0 <= i < inv.len() implies invertible((#[trigger] inv[i])@) by {
            assert(values(inv@)[i] == values(den@)[i]);
            assert(invertible(den[i]@));
        }
        assert(values(inv@).len() == inv.len());
    }
    let ghost copy = inv@;
    batch_inverse(&mut inv);
    let mut sum = Fr::zero();
    for i in 0..num.len()
        invariant
            num.len() == inv.len(),
            inv.len() == copy.len(),
            values(copy) == q,
            p == values(num@),
            forall|j: int| 0 <= j < inv.len() ==> (#[trigger] inv[j])@ == inverse_of(copy[j]@),
            sum@ == sum_to(i as int, |i: int| p[i] * inverse_of(q[i])),
    {
        assert(values(copy)[i as int] == copy[i as int]@);
        sum = sum + num[i] * inv[i];
    }
    let mut sums: Vec<Fr> = Vec::new();
    sums.push(sum);
    assert(values(sums@) =~= seq![fraction_sum(p, q)]);
    proof.push_f(sums.as_slice());
    let nc = copied(&num);
    let dc = copied(&den);
    let point = gkr_fractional_sum_prove(num, den, n, proof, ro);
    proof {
        assert(values(nc@).len() == nc.len());
        assert(values(dc@).len() == dc.len());
    }
    let ne = MlPoly(nc).eval(point.as_slice());
    let de = MlPoly(dc).eval(point.as_slice());
    (sum, point, ne, de)
}

/// Checks a sum of fractions with `2^n` leaves: gives the sum, the point of the
/// leaves, and the claimed values of the numerators and denominators there.
pub fn frac_sum_verify(n: usize, chan: &mut Channel) -> (out: (Fr, Vec<Fr>, Fr, Fr))
    ensures
        (
            final(chan)@,
            out.0@,
            (LayerClaim { point: values(out.1@), p: out.2@, q: out.3@ }),
        ) == verify_fractions(n as int, old(chan)@),
        out.1.len() == n,
        final(chan).same_oracle(old(chan)),
{
    reveal(verify_fractions);
    let ghost st = chan@;
    let sum = chan.read_f();
    let r = chan.read_fs(2);
    chan.require(r[0] == sum * r[1] && !(r[1] == Fr::zero()));
    let mut point: Vec<Fr> = Vec::new();
    let mut p = r[0];
    let mut q = r[1];
    assert(values(point@) =~= Seq::<int>::empty());
    let ghost goal = verify_layers(
        n as int,
        LayerClaim { point: values(point@), p: p@, q: q@ },
        chan@,
    );
    for k in 0..n
        invariant
            point.len() == k,
            chan.same_oracle(old(chan)),
            goal == verify_layers(
                n - k,
                LayerClaim { point: values(point@), p: p@, q: q@ },
                chan@,
            ),
    {
        let next = layer_check(&point, p, q, chan);
        point = next.0;
        p = next.1;
        q = next.2;
    }
    (sum, point, p, q)
}

fn layer_check(point: &Vec<Fr>, p: Fr, q: Fr, chan: &mut Channel) -> (out: (Vec<Fr>, Fr, Fr))
    requires
        point.len() < usize::MAX,
    ensures
        (
            final(chan)@,
            (LayerClaim { point: values(out.0@), p: out.1@, q: out.2@ }),
        ) == verify_layer(
            LayerClaim { point: values(point@), p: p@, q: q@ },
            old(chan)@,
        ),
        out.0.len() == point.len() + 1,
        final(chan).same_oracle(old(chan)),
{
    reveal(verify_layer);
    let k: usize = point.len();
    assert(values(point@).len() == k);
    let lambda = chan.challenge();
    let (x, y) = verifier_sumcheck(p + lambda * q, k, 3, chan);
    let v = chan.read_fs(4);
    let eq = MlPoly::eval_eq(point, &x);
    chan.require(y == (v[0] * v[3] + v[1] * v[2] + lambda * (v[2] * v[3])) * eq);
    let mu = chan.challenge();
    let mut next: Vec<Fr> = Vec::new();
    next.push(mu);
    let ghost xv = values(x@);
    assert(values(next@) =~= seq![mu@] + xv.take(0));
    for i in 0..k
        invariant
            k == x.len(),
            xv == values(x@),
            next.len() == i + 1,
            values(next@) == seq![mu@] + xv.take(i as int),
    {
        let ghost before = values(next@);
        next.push(x[i]);
        assert(values(next@) =~= before.push(xv[i as int]));
        assert(values(next@) =~= seq![mu@] + xv.take(i + 1));
    }
    assert(xv.take(k as int) =~= xv);
    (next, v[0] + mu * (v[1] - v[0]), v[2] + mu * (v[3] - v[2]))
}

} // verus!
