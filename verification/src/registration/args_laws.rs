//! Sums weighted by `eq` and sums of fractions are accepted.
use vstd::prelude::*;
use vstd::arithmetic::power2::*;
use crate::field::{
    cong, inverse_of, invertible, lemma_cong_cancel, lemma_cong_ops, lemma_inverse_of,
    lemma_invertible_mul,
};
use crate::interpolation::lemma_sum_cong;
use crate::kzg::{evens, odds};
use crate::poly::{at, eq_at, eq_points, fold, lemma_mle_constant, lemma_mle_fold, mle};
use crate::replay::{
    all_off, extends, law_rounds, lemma_challenge, lemma_extends, lemma_read_f, lemma_read_fs,
    rest_of, row_at, row_value, whole_sum,
};
use crate::shapes::lemma_mle_eq_table;
use crate::sparse::eq_table;
use crate::speaker::{Sent, drawn, send_fs, send_rounds};
use crate::sumcheck::{Gate, gate_degree, gate_fits, gate_value, same_len, values_at};
use crate::sums::{
    lemma_pow2_step, lemma_sum_add, lemma_sum_eq, lemma_sum_pairs, lemma_sum_scale, sum_to,
};
use super::args::{
    LayerClaim, fraction_gate, fraction_sum, layer_draws, layer_tabs, lemma_gate_fits_more,
    lemma_level_len, level, send_eq_sum, send_fractions, send_layer, send_layers, up_den, up_num,
    verify_eq_sum, verify_fractions, verify_layer, verify_layers, weighted_gate,
};

verus! {

/// An expression depends on the vectors alone that it reads.
pub proof fn lemma_gate_value_prefix(g: Gate, v: Seq<int>, w: Seq<int>, n: nat, c: Seq<int>)
    requires
        gate_fits(g, n, c.len()),
        n <= v.len(),
        n <= w.len(),
        forall|i: int| 0 <= i < n ==> v[i] == w[i],
    ensures
        gate_value(g, v, c) == gate_value(g, w, c),
    decreases g,
{
    match g {
        Gate::Add(a, b) => {
            lemma_gate_value_prefix(*a, v, w, n, c);
            lemma_gate_value_prefix(*b, v, w, n, c);
        },
        Gate::Sub(a, b) => {
            lemma_gate_value_prefix(*a, v, w, n, c);
            lemma_gate_value_prefix(*b, v, w, n, c);
        },
        Gate::Mul(a, b) => {
            lemma_gate_value_prefix(*a, v, w, n, c);
            lemma_gate_value_prefix(*b, v, w, n, c);
        },
        _ => {},
    }
}

/// The sum of an expression over the cube, weighted by `eq`.
pub open spec fn eq_sum(
    point: Seq<int>,
    tabs: Seq<Seq<int>>,
    g: Gate,
    coins: Seq<int>,
) -> int {
    sum_to(
        pow2(point.len()) as int,
        |j: int| gate_value(g, row_at(tabs, j), coins) * eq_at(point, j),
    )
}

/// What was sent before a sum weighted by `eq` is the start of what was sent after it.
pub proof fn lemma_eq_sum_extends(
    s: Sent,
    point: Seq<int>,
    tabs: Seq<Seq<int>>,
    d: int,
    g: Gate,
    coins: Seq<int>,
    full: Sent,
)
    requires
        extends(full, send_eq_sum(s, point, tabs, d, g, coins).0),
    ensures
        extends(full, s),
{
    reveal(send_eq_sum);
    let end = send_eq_sum(s, point, tabs, d, g, coins).0;
    assert(s.u =~= end.u.take(s.u.len() as int));
    assert(s.f =~= end.f.take(s.f.len() as int));
    assert(s.g =~= end.g.take(s.g.len() as int));
    lemma_extends(full, s, end);
}

/// A sum of an expression weighted by `eq` is accepted for the right sum, and leaves the
/// verifier with the values of the vectors.
pub proof fn law_eq_sum(
    eq_point: Seq<int>,
    tabs: Seq<Seq<int>>,
    d: int,
    g: Gate,
    coins: Seq<int>,
    claim: int,
    full: Sent,
    s: Sent,
)
    requires
        gate_fits(g, tabs.len(), coins.len()),
        gate_degree(g) + 1 <= d,
        1 <= d <= u64::MAX,
        tabs.len() < usize::MAX,
        same_len(tabs, pow2(eq_point.len()) as int),
        s.ch.len() >= eq_point.len(),
        all_off(d, send_eq_sum(s, eq_point, tabs, d, g, coins).1),
        cong(claim, eq_sum(eq_point, tabs, g, coins)),
        extends(full, send_eq_sum(s, eq_point, tabs, d, g, coins).0),
    ensures
        extends(full, s),
        ({
            let (end, p) = send_eq_sum(s, eq_point, tabs, d, g, coins);
            &&& verify_eq_sum(rest_of(full, s), eq_point, claim, d, tabs.len() as int, g, coins)
                == (rest_of(full, end), p, values_at(tabs, p))
            &&& p.len() == eq_point.len()
            &&& end.ch == s.ch.skip(eq_point.len() as int)
        }),
{
    reveal(send_eq_sum);
    reveal(verify_eq_sum);
    let nv = eq_point.len() as int;
    let n = tabs.len();
    let len = pow2(nv as nat) as int;
    lemma_pow2_step(nv as nat);
    let eq = eq_table(eq_point);
    let all = tabs.push(eq);
    let w = weighted_gate(g, n as usize);
    let point = s.ch.take(nv);
    let s1 = send_rounds(s, w, coins, all, len, d, nv);
    let vals = values_at(tabs, point);
    let end = send_fs(s1, vals);
    lemma_read_fs(full, s1, vals);
    lemma_gate_fits_more(g, n, coins.len());
    reveal_with_fuel(gate_fits, 2);
    reveal_with_fuel(gate_degree, 2);
    assert(same_len(all, len)) by {
        assert forall|t: int| 0 <= t < all.len() implies (#[trigger] all[t]).len() == len by {
            if t < n {
                assert(all[t] == tabs[t]);
            }
        }
    }
    let a = |j: int| row_value(w, coins, all, j);
    let b = |j: int| gate_value(g, row_at(tabs, j), coins) * eq_at(eq_point, j);
    assert forall|j: int| 0 <= j < len implies #[trigger] a(j) == b(j) by {
        let v = row_at(all, j);
        lemma_gate_value_prefix(g, v, row_at(tabs, j), n, coins);
        reveal_with_fuel(gate_value, 2);
        assert(v[n as int] == at(eq, j));
    }
    lemma_sum_eq(len, a, b);
    law_rounds(w, coins, all, len, d, nv, claim, full, s);
    let v = values_at(all, point);
    lemma_gate_value_prefix(g, v, vals, n, coins);
    reveal_with_fuel(gate_value, 2);
    assert(v[n as int] == mle(all[n as int], point));
    lemma_mle_eq_table(eq_point, point);
    let x = gate_value(g, vals, coins);
    let y = eq_points(eq_point, point, nv);
    assert(x * y == y * x) by (nonlinear_arith);
}

/// The fractions of a level, and their sum.
proof fn lemma_up(p: Seq<int>, q: Seq<int>, m: int)
    requires
        p.len() == 2 * m,
        q.len() == 2 * m,
        forall|i: int| 0 <= i < q.len() ==> invertible(#[trigger] q[i]),
    ensures
        forall|i: int| 0 <= i < m ==> invertible(#[trigger] up_den(q)[i]),
        cong(fraction_sum(up_num(p, q), up_den(q)), fraction_sum(p, q)),
{
    let a = up_num(p, q);
    let b = up_den(q);
    assert forall|i: int| 0 <= i < m implies invertible(#[trigger] b[i]) by {
        assert(invertible(q[2 * i]));
        assert(invertible(q[2 * i + 1]));
        lemma_invertible_mul(q[2 * i], q[2 * i + 1]);
    }
    let f = |i: int| p[i] * inverse_of(q[i]);
    lemma_sum_pairs(m, f);
    let l = |i: int| a[i] * inverse_of(b[i]);
    let r = |i: int| f(2 * i) + f(2 * i + 1);
    assert forall|i: int| 0 <= i < m implies cong(#[trigger] l(i), r(i)) by {
        assert(invertible(q[2 * i]));
        assert(invertible(q[2 * i + 1]));
        lemma_invertible_mul(q[2 * i], q[2 * i + 1]);
        lemma_fraction_add(p[2 * i], q[2 * i], p[2 * i + 1], q[2 * i + 1]);
    }
    lemma_sum_cong(m, l, r);
}

/// The sum of two fractions.
proof fn lemma_fraction_add(a: int, b: int, c: int, d: int)
    requires
        invertible(b),
        invertible(d),
        invertible(b * d),
    ensures
        cong(
            (a * d + c * b) * inverse_of(b * d),
            a * inverse_of(b) + c * inverse_of(d),
        ),
{
    let x = inverse_of(b);
    let y = inverse_of(d);
    let w = inverse_of(b * d);
    lemma_inverse_of(b);
    lemma_inverse_of(d);
    lemma_inverse_of(b * d);
    // both sides times b * d
    let l = (a * d + c * b) * w;
    let r = a * x + c * y;
    let e = b * d;
    let n = a * d + c * b;
    assert(l * e == n * (e * w)) by (nonlinear_arith)
        requires
            l == n * w,
    ;
    lemma_cong_ops(n, n, e * w, 1);
    assert(n * 1 == n);
    assert(cong(l * e, n));
    let ax = a * x;
    let cy = c * y;
    assert((ax + cy) * e == ax * e + cy * e) by (nonlinear_arith);
    assert((a * x) * (b * d) == (a * d) * (b * x)) by (nonlinear_arith);
    assert((c * y) * (b * d) == (c * b) * (d * y)) by (nonlinear_arith);
    lemma_cong_ops(a * d, a * d, b * x, 1);
    lemma_cong_ops(c * b, c * b, d * y, 1);
    assert((a * d) * 1 == a * d && (c * b) * 1 == c * b);
    lemma_cong_ops((a * d) * (b * x), a * d, (c * b) * (d * y), c * b);
    assert(cong(r * e, n));
    lemma_cong_cancel(l, r, e);
}

/// The fractions of all levels have the same sum.
pub proof fn lemma_level_sum(p: Seq<int>, q: Seq<int>, n: nat, d: int)
    requires
        p.len() == pow2(n),
        q.len() == pow2(n),
        0 <= d <= n,
        forall|i: int| 0 <= i < q.len() ==> invertible(#[trigger] q[i]),
    ensures
        forall|i: int|
            0 <= i < level(p, q, d).1.len() ==> invertible(#[trigger] level(p, q, d).1[i]),
        cong(fraction_sum(level(p, q, d).0, level(p, q, d).1), fraction_sum(p, q)),
    decreases d,
{
    if d > 0 {
        lemma_level_sum(p, q, n, d - 1);
        lemma_level_len(p, q, n, d - 1);
        let (a, b) = level(p, q, d - 1);
        let m = pow2((n - d) as nat) as int;
        lemma_pow2_step((n - d) as nat);
        lemma_up(a, b, m);
    }
}

/// The expression for a layer adds up to the claims on the layer above.
pub proof fn lemma_layer_sum(p: Seq<int>, q: Seq<int>, point: Seq<int>, lambda: int)
    requires
        p.len() == pow2(point.len() + 1),
        q.len() == p.len(),
    ensures
        whole_sum(
            fraction_gate(),
            seq![lambda],
            layer_tabs(p, q, point),
            pow2(point.len()) as int,
        ) == mle(up_num(p, q), point) + lambda * mle(up_den(q), point),
        same_len(layer_tabs(p, q, point), pow2(point.len()) as int),
{
    let m = pow2(point.len()) as int;
    lemma_pow2_step(point.len());
    let tabs = layer_tabs(p, q, point);
    let c = seq![lambda];
    let g = fraction_gate();
    assert forall|t: int| 0 <= t < tabs.len() implies (#[trigger] tabs[t]).len() == m by {}
    let a = up_num(p, q);
    let b = up_den(q);
    let x = |i: int| a[i] * eq_at(point, i);
    let y = |i: int| b[i] * eq_at(point, i);
    let ly = |i: int| lambda * y(i);
    lemma_sum_scale(m, lambda, y);
    lemma_sum_add(m, x, ly);
    let l = |j: int| row_value(g, c, tabs, j);
    let r = |i: int| x(i) + ly(i);
    assert forall|j: int| 0 <= j < m implies #[trigger] l(j) == r(j) by {
        let v = row_at(tabs, j);
        lemma_fraction_value(v, c);
        assert(v[0] == at(tabs[0], j));
        assert(v[1] == at(tabs[1], j));
        assert(v[2] == at(tabs[2], j));
        assert(v[3] == at(tabs[3], j));
        assert(v[4] == at(tabs[4], j));
        let e = eq_at(point, j);
        let u = a[j];
        let w = b[j];
        assert(v[0] * v[3] + v[1] * v[2] == u);
        assert(v[2] * v[3] == w);
        assert((u + lambda * w) * e == u * e + lambda * (w * e)) by (nonlinear_arith);
    }
    lemma_sum_eq(m, l, r);
}

/// What the expression for a layer computes.
pub proof fn lemma_fraction_value(v: Seq<int>, c: Seq<int>)
    ensures
        gate_value(fraction_gate(), v, c) == (v[0] * v[3] + v[1] * v[2] + c[0] * (v[2] * v[3]))
            * v[4],
        gate_degree(fraction_gate()) == 3,
        gate_fits(fraction_gate(), 5, 1),
{
    reveal_with_fuel(gate_value, 6);
    reveal_with_fuel(gate_degree, 6);
    reveal_with_fuel(gate_fits, 6);
}

/// The value of a vector from those of its even and odd entries.
pub proof fn lemma_mle_pairs(f: Seq<int>, mu: int, x: Seq<int>)
    requires
        f.len() == pow2(x.len() + 1),
    ensures
        mle(f, seq![mu] + x) == mle(evens(f), x) + mu * (mle(odds(f), x) - mle(evens(f), x)),
{
    let p = seq![mu] + x;
    let a = evens(f);
    let b = odds(f);
    let m = pow2(x.len()) as int;
    lemma_pow2_step(x.len());
    lemma_mle_fold(f, p);
    assert(p.drop_first() =~= x);
    let d = Seq::new(m as nat, |i: int| b[i] - a[i]);
    let g = fold(f, mu);
    assert(g =~= crate::sparse::affine(a, d, mu)) by {
        assert forall|i: int| 0 <= i < m implies g[i] == crate::sparse::affine(a, d, mu)[i] by {
            let u = b[i] - a[i];
            assert(u * mu == mu * u) by (nonlinear_arith);
        }
    }
    crate::shapes::lemma_mle_affine(a, d, mu, x);
    let minus = crate::sparse::affine(b, a, -1);
    crate::shapes::lemma_mle_affine(b, a, -1, x);
    assert(d =~= minus);
}

/// The claim of the verifier on a layer is right.
pub open spec fn layer_right(p: Seq<int>, q: Seq<int>, c: LayerClaim) -> bool {
    cong(c.p, mle(p, c.point)) && cong(c.q, mle(q, c.point))
}

proof fn lemma_layer_extends(p: Seq<int>, q: Seq<int>, point: Seq<int>, s: Sent, full: Sent)
    requires
        extends(full, send_layer(p, q, point, s).0),
    ensures
        extends(full, s),
{
    reveal(send_layer);
    let end = send_layer(p, q, point, s).0;
    assert(s.u =~= end.u.take(s.u.len() as int));
    assert(s.f =~= end.f.take(s.f.len() as int));
    assert(s.g =~= end.g.take(s.g.len() as int));
    lemma_extends(full, s, end);
}

/// A layer is accepted, and a right claim on it leaves one on the layer below.
proof fn lemma_layer(p: Seq<int>, q: Seq<int>, c: LayerClaim, full: Sent, s: Sent)
    requires
        p.len() == pow2(c.point.len() + 1),
        q.len() == p.len(),
        layer_right(up_num(p, q), up_den(q), c),
        s.ch.len() >= 2 + c.point.len(),
        all_off(3, s.ch.subrange(1, 1 + c.point.len() as int)),
        extends(full, send_layer(p, q, c.point, s).0),
    ensures
        extends(full, s),
        ({
            let (end, next) = send_layer(p, q, c.point, s);
            let (st, d) = verify_layer(c, rest_of(full, s));
            &&& st == rest_of(full, end)
            &&& d.point == next
            &&& layer_right(p, q, d)
            &&& next.len() == c.point.len() + 1
            &&& end.ch == s.ch.skip(2 + c.point.len() as int)
        }),
{
    reveal(send_layer);
    reveal(verify_layer);
    let k = c.point.len() as int;
    lemma_pow2_step(k as nat);
    let lambda = s.ch[0];
    let s1 = drawn(s, 1);
    let tabs = layer_tabs(p, q, c.point);
    let x = s1.ch.take(k);
    assert(x =~= s.ch.subrange(1, 1 + k));
    let coins = seq![lambda];
    let g = fraction_gate();
    let s2 = send_rounds(s1, g, coins, tabs, pow2(k as nat) as int, 3, k);
    let vals = values_at(tabs, x).take(4);
    let s3 = send_fs(s2, vals);
    let mu = s3.ch[0];
    let end = drawn(s3, 1);
    lemma_challenge(full, s3);
    lemma_read_fs(full, s2, vals);
    lemma_layer_sum(p, q, c.point, lambda);
    let claim = c.p + lambda * c.q;
    let mp = mle(up_num(p, q), c.point);
    let mq = mle(up_den(q), c.point);
    lemma_cong_ops(lambda, lambda, c.q, mq);
    lemma_cong_ops(c.p, mp, lambda * c.q, lambda * mq);
    lemma_fraction_value(values_at(tabs, x), coins);
    law_rounds(g, coins, tabs, pow2(k as nat) as int, 3, k, claim, full, s1);
    lemma_challenge(full, s);
    let w = values_at(tabs, x);
    assert(w[0] == mle(tabs[0], x));
    assert(w[1] == mle(tabs[1], x));
    assert(w[2] == mle(tabs[2], x));
    assert(w[3] == mle(tabs[3], x));
    assert(w[4] == mle(tabs[4], x));
    lemma_mle_eq_table(c.point, x);
    lemma_mle_pairs(p, mu, x);
    lemma_mle_pairs(q, mu, x);
    assert(end.ch =~= s.ch.skip(2 + k));
}

/// None of the challenges of the rounds of the layers from layer `k` on is a node.
pub open spec fn layers_off(n: int, k: int, ch: Seq<int>) -> bool
    decreases n - k,
{
    if k >= n {
        true
    } else {
        all_off(3, ch.subrange(1, 1 + k)) && layers_off(n, k + 1, ch.skip(2 + k))
    }
}

proof fn lemma_layers_extends(
    p: Seq<int>,
    q: Seq<int>,
    n: int,
    point: Seq<int>,
    s: Sent,
    full: Sent,
)
    requires
        extends(full, send_layers(p, q, n, point, s).0),
    ensures
        extends(full, s),
    decreases n - point.len(),
{
    let k = point.len() as int;
    if k < n {
        let (a, b) = level(p, q, n - k - 1);
        let (s1, next) = send_layer(a, b, point, s);
        if k < next.len() <= n {
            lemma_layers_extends(p, q, n, next, s1, full);
        }
        lemma_layer_extends(a, b, point, s, full);
    }
}

/// The layers from layer `k` on are accepted, and a right claim on the first leaves one
/// on the leaves.
proof fn lemma_layers(p: Seq<int>, q: Seq<int>, n: int, c: LayerClaim, full: Sent, s: Sent)
    requires
        0 <= c.point.len() <= n,
        p.len() == pow2(n as nat),
        q.len() == p.len(),
        layer_right(
            level(p, q, n - c.point.len()).0,
            level(p, q, n - c.point.len()).1,
            c,
        ),
        s.ch.len() >= layer_draws(n, c.point.len() as int),
        layers_off(n, c.point.len() as int, s.ch),
        extends(full, send_layers(p, q, n, c.point, s).0),
    ensures
        extends(full, s),
        ({
            let (end, last) = send_layers(p, q, n, c.point, s);
            let (st, d) = verify_layers(n - c.point.len(), c, rest_of(full, s));
            &&& st == rest_of(full, end)
            &&& d.point == last
            &&& last.len() == n
            &&& layer_right(p, q, d)
            &&& end.ch == s.ch.skip(layer_draws(n, c.point.len() as int))
        }),
    decreases n - c.point.len(),
{
    let k = c.point.len() as int;
    if k < n {
        let (a, b) = level(p, q, n - k - 1);
        lemma_level_len(p, q, n as nat, n - k - 1);
        let (s1, next) = send_layer(a, b, c.point, s);
        assert(next.len() == k + 1) by {
            reveal(send_layer);
            lemma_layer_draws_least(n, k + 1);
        }
        lemma_layer_draws_least(n, k + 1);
        lemma_layers_extends(p, q, n, next, s1, full);
        lemma_layer(a, b, c, full, s);
        let (st, d) = verify_layer(c, rest_of(full, s));
        lemma_layers(p, q, n, d, full, s1);
        let r = layer_draws(n, k + 1);
        assert(s.ch.skip(2 + k).skip(r) =~= s.ch.skip(2 + k + r));
    } else {
        assert(s.ch.skip(0) =~= s.ch);
    }
}

proof fn lemma_layer_draws_least(n: int, k: int)
    requires
        0 <= k,
    ensures
        layer_draws(n, k) >= 0,
    decreases n - k,
{
    if k < n {
        lemma_layer_draws_least(n, k + 1);
    }
}

/// What was sent before a sum of fractions is the start of what was sent after it.
pub proof fn lemma_fractions_extends(p: Seq<int>, q: Seq<int>, n: int, s: Sent, full: Sent)
    requires
        extends(full, send_fractions(p, q, n, s).0),
    ensures
        extends(full, s),
{
    reveal(send_fractions);
    let (a, b) = level(p, q, n);
    let s0 = send_fs(s, seq![fraction_sum(p, q)]);
    let s1 = send_fs(s0, seq![a[0], b[0]]);
    lemma_layers_extends(p, q, n, Seq::empty(), s1, full);
    lemma_read_fs(full, s0, seq![a[0], b[0]]);
    lemma_read_fs(full, s, seq![fraction_sum(p, q)]);
}

/// A sum of fractions whose denominators are invertible is accepted, and leaves the
/// verifier with right claims on the numerators and the denominators.
pub proof fn law_fractions(p: Seq<int>, q: Seq<int>, n: nat, full: Sent, s: Sent)
    requires
        p.len() == pow2(n),
        q.len() == p.len(),
        forall|i: int| 0 <= i < q.len() ==> invertible(#[trigger] q[i]),
        s.ch.len() >= layer_draws(n as int, 0),
        layers_off(n as int, 0, s.ch),
        extends(full, send_fractions(p, q, n as int, s).0),
    ensures
        extends(full, s),
        ({
            let (end, point) = send_fractions(p, q, n as int, s);
            let (st, sum, c) = verify_fractions(n as int, rest_of(full, s));
            &&& st == rest_of(full, end)
            &&& sum == fraction_sum(p, q)
            &&& c.point == point
            &&& point.len() == n
            &&& layer_right(p, q, c)
            &&& end.ch == s.ch.skip(layer_draws(n as int, 0))
        }),
{
    reveal(send_fractions);
    reveal(verify_fractions);
    let (a, b) = level(p, q, n as int);
    let sum = fraction_sum(p, q);
    let s0 = send_fs(s, seq![sum]);
    let roots = seq![a[0], b[0]];
    let s1 = send_fs(s0, roots);
    let none = Seq::<int>::empty();
    lemma_layers_extends(p, q, n as int, none, s1, full);
    lemma_read_fs(full, s0, roots);
    lemma_read_f(full, s, sum);
    lemma_level_len(p, q, n, n as int);
    lemma_pow2_step(0);
    lemma_level_sum(p, q, n, n as int);
    let x = a[0];
    let y = b[0];
    assert(invertible(b[0]));
    lemma_inverse_of(y);
    let w = inverse_of(y);
    let f = |i: int| a[i] * inverse_of(b[i]);
    reveal_with_fuel(sum_to, 2);
    assert(fraction_sum(a, b) == f(0));
    assert(cong(x * w, sum));
    lemma_cong_ops(x * w, sum, y, y);
    assert((x * w) * y == x * (y * w)) by (nonlinear_arith);
    lemma_cong_ops(x, x, y * w, 1);
    assert(x * 1 == x);
    assert(cong(x, sum * y));
    assert(!cong(y, 0)) by {
        if cong(y, 0) {
            lemma_cong_ops(y, 0, w, w);
            assert(0 * w == 0);
            crate::field::lemma_one_nonzero();
        }
    }
    lemma_mle_constant(a);
    lemma_mle_constant(b);
    let c = LayerClaim { point: none, p: x, q: y };
    lemma_layers(p, q, n as int, c, full, s1);
}

} // verus!
