//! What a wrong claim needs to pass the sums of a certificate.
use vstd::prelude::*;
use vstd::arithmetic::power2::*;
use crate::channel::{State, challenge, read_f, read_fs, require};
use crate::field::{
    cong, inverse_of, invertible, lemma_cong_cancel, lemma_cong_ops, lemma_inverse_of,
};
use crate::poly::{at, eq_at, eq_points, lemma_mle_constant, mle};
use crate::refusal::{lemma_rounds_len, lemma_rounds_ok};
use crate::replay::{
    extends, lemma_extends, lemma_read_fs, lemma_round_halves, rest_of, row_at, row_value,
    whole_sum,
};
use crate::shapes::lemma_mle_eq_table;
use crate::soundness::{law_sound_rounds, met};
use crate::sparse::eq_table;
use crate::speaker::{Sent, send_fs};
use crate::sumcheck::{
    Gate, extrapolate, fold_tables, gate_degree, gate_fits, gate_value, messages, off_nodes,
    round_message, same_len, values_at, verify_rounds,
};
use crate::sums::{lemma_pow2_step, lemma_sum_eq, sum_to};
use super::args::{
    LayerClaim, fraction_gate, fraction_sum, layer_tabs, lemma_gate_fits_more, lemma_level_len,
    level, send_eq_sum, up_den, up_num, verify_eq_sum, verify_fractions, verify_layer,
    verify_layers, weighted_gate,
};
use super::args_laws::{
    eq_sum, law_eq_sum, layer_right, lemma_fraction_value, lemma_gate_value_prefix, lemma_layer_sum,
    lemma_level_sum, lemma_mle_pairs,
};

verus! {

/// An expression has congruent values at congruent arguments.
pub proof fn lemma_gate_cong(g: Gate, u: Seq<int>, v: Seq<int>, coins: Seq<int>, n: nat, m: nat)
    requires
        gate_fits(g, n, m),
        forall|i: int| 0 <= i < n ==> cong(#[trigger] u[i], v[i]),
    ensures
        cong(gate_value(g, u, coins), gate_value(g, v, coins)),
    decreases g,
{
    match g {
        Gate::Var(i) => {
            assert(cong(u[i as int], v[i as int]));
        },
        Gate::Add(a, b) => {
            lemma_gate_cong(*a, u, v, coins, n, m);
            lemma_gate_cong(*b, u, v, coins, n, m);
            lemma_cong_ops(
                gate_value(*a, u, coins),
                gate_value(*a, v, coins),
                gate_value(*b, u, coins),
                gate_value(*b, v, coins),
            );
        },
        Gate::Sub(a, b) => {
            lemma_gate_cong(*a, u, v, coins, n, m);
            lemma_gate_cong(*b, u, v, coins, n, m);
            lemma_cong_ops(
                gate_value(*a, u, coins),
                gate_value(*a, v, coins),
                gate_value(*b, u, coins),
                gate_value(*b, v, coins),
            );
        },
        Gate::Mul(a, b) => {
            lemma_gate_cong(*a, u, v, coins, n, m);
            lemma_gate_cong(*b, u, v, coins, n, m);
            lemma_cong_ops(
                gate_value(*a, u, coins),
                gate_value(*a, v, coins),
                gate_value(*b, u, coins),
                gate_value(*b, v, coins),
            );
        },
        _ => {},
    }
}

/// The sum that a weighted expression adds up to, and the lengths of its vectors.
proof fn lemma_weighted_sum(
    eq_point: Seq<int>,
    tabs: Seq<Seq<int>>,
    g: Gate,
    coins: Seq<int>,
    point: Seq<int>,
)
    requires
        gate_fits(g, tabs.len(), coins.len()),
        tabs.len() < usize::MAX,
        same_len(tabs, pow2(eq_point.len()) as int),
        point.len() == eq_point.len(),
    ensures
        ({
            let w = weighted_gate(g, tabs.len() as usize);
            let all = tabs.push(eq_table(eq_point));
            let len = pow2(eq_point.len()) as int;
            &&& gate_fits(w, all.len(), coins.len())
            &&& gate_degree(w) == gate_degree(g) + 1
            &&& same_len(all, len)
            &&& whole_sum(w, coins, all, len) == eq_sum(eq_point, tabs, g, coins)
            &&& gate_value(w, values_at(all, point), coins) == gate_value(
                g,
                values_at(tabs, point),
                coins,
            ) * eq_points(eq_point, point, eq_point.len() as int)
        }),
{
    let n = tabs.len();
    let len = pow2(eq_point.len()) as int;
    let eq = eq_table(eq_point);
    let all = tabs.push(eq);
    let w = weighted_gate(g, n as usize);
    lemma_gate_fits_more(g, n, coins.len());
    reveal_with_fuel(gate_fits, 2);
    reveal_with_fuel(gate_degree, 2);
    assert(same_len(all, len)) by {
        assert forall|t: int| 0 <= t < all.len() implies (#[trigger] all[t]).len() == len by {
            if t < n {
                assert(all[t] == tabs[t]);
            }
        }
    }
    let a = |j: int| row_value(w, coins, all, j);
    let b = |j: int| gate_value(g, row_at(tabs, j), coins) * eq_at(eq_point, j);
    assert forall|j: int| 0 <= j < len implies #[trigger] a(j) == b(j) by {
        let v = row_at(all, j);
        lemma_gate_value_prefix(g, v, row_at(tabs, j), n, coins);
        reveal_with_fuel(gate_value, 2);
        assert(v[n as int] == at(eq, j));
    }
    lemma_sum_eq(len, a, b);
    let v = values_at(all, point);
    lemma_gate_value_prefix(g, v, values_at(tabs, point), n, coins);
    reveal_with_fuel(gate_value, 2);
    assert(v[n as int] == mle(all[n as int], point));
    lemma_mle_eq_table(eq_point, point);
}

/// A check of a sum of an expression weighted by `eq` that is accepted, and leaves right
/// claims on the vectors, was of the right sum; unless in some round messages that differ
/// meet at the challenge.
pub proof fn law_sound_eq_sum(
    eq_point: Seq<int>,
    tabs: Seq<Seq<int>>,
    d: int,
    g: Gate,
    coins: Seq<int>,
    claim: int,
    st: State,
)
    requires
        gate_fits(g, tabs.len(), coins.len()),
        gate_degree(g) + 1 <= d,
        1 <= d <= u64::MAX,
        tabs.len() < usize::MAX,
        same_len(tabs, pow2(eq_point.len()) as int),
        ({
            let (end, p, v) = verify_eq_sum(
                st,
                eq_point,
                claim,
                d,
                tabs.len() as int,
                g,
                coins,
            );
            end.ok && forall|i: int|
                0 <= i < tabs.len() ==> cong(#[trigger] v[i], values_at(tabs, p)[i])
        }),
    ensures
        cong(claim, eq_sum(eq_point, tabs, g, coins)) || met(
            claim,
            eq_point.len() as int,
            d,
            st,
            weighted_gate(g, tabs.len() as usize),
            coins,
            tabs.push(eq_table(eq_point)),
            pow2(eq_point.len()) as int,
        ),
{
    reveal(verify_eq_sum);
    let nv = eq_point.len() as int;
    let n = tabs.len();
    let len = pow2(nv as nat) as int;
    lemma_pow2_step(nv as nat);
    let (point, y, st1) = verify_rounds(claim, nv, d, st);
    lemma_rounds_len(claim, nv, d, st);
    let (st2, v) = read_fs(st1, n as int);
    lemma_weighted_sum(eq_point, tabs, g, coins, point);
    let vals = values_at(tabs, point);
    let out = verify_eq_sum(st, eq_point, claim, d, n as int, g, coins);
    assert(out.2 == v && out.1 == point);
    assert forall|i: int| 0 <= i < n implies cong(#[trigger] v[i], vals[i]) by {
        assert(cong(out.2[i], vals[i]));
    }
    lemma_gate_cong(g, v, vals, coins, n, coins.len());
    let x = gate_value(g, v, coins);
    let u = gate_value(g, vals, coins);
    let e = eq_points(eq_point, point, nv);
    lemma_cong_ops(e, e, x, u);
    assert(e * u == u * e) by (nonlinear_arith);
    law_sound_rounds(
        weighted_gate(g, n as usize),
        coins,
        tabs.push(eq_table(eq_point)),
        len,
        d,
        nv,
        claim,
        st,
    );
}

proof fn lemma_first_round_only(
    eq_point: Seq<int>,
    tabs: Seq<Seq<int>>,
    d: int,
    g: Gate,
    coins: Seq<int>,
    claim: int,
    full: Sent,
    s: Sent,
)
    requires
        gate_fits(g, tabs.len(), coins.len()),
        gate_degree(g) + 1 <= d,
        1 <= d <= u64::MAX,
        tabs.len() < usize::MAX,
        same_len(tabs, pow2(eq_point.len()) as int),
        eq_point.len() >= 1,
        s.ch.len() >= eq_point.len(),
        extends(full, send_eq_sum(s, eq_point, tabs, d, g, coins).0),
        !cong(claim, eq_sum(eq_point, tabs, g, coins)),
    ensures
        !verify_eq_sum(
            rest_of(full, s),
            eq_point,
            claim,
            d,
            tabs.len() as int,
            g,
            coins,
        ).0.ok,
{
    reveal(send_eq_sum);
    reveal(verify_eq_sum);
    let nv = eq_point.len() as int;
    let n = tabs.len();
    let len = pow2(nv as nat) as int;
    lemma_pow2_step((nv - 1) as nat);
    let all = tabs.push(eq_table(eq_point));
    let w = weighted_gate(g, n as usize);
    let rs = s.ch.take(nv);
    lemma_weighted_sum(eq_point, tabs, g, coins, rs);
    let msg = round_message(w, coins, all, len, d);
    let end = send_eq_sum(s, eq_point, tabs, d, g, coins).0;
    let s0 = send_fs(s, msg);
    let rest = messages(
        w,
        coins,
        fold_tables(all, rs[0]),
        (len + 1) / 2,
        d,
        rs.drop_first(),
    );
    assert(messages(w, coins, all, len, d, rs) == msg + rest);
    assert(s0.f =~= end.f.take(s0.f.len() as int));
    assert(s0.u =~= end.u.take(s0.u.len() as int));
    assert(s0.g =~= end.g.take(s0.g.len() as int));
    lemma_extends(full, s0, end);
    lemma_read_fs(full, s, msg);
    lemma_round_halves(w, coins, all, len);
    let st = rest_of(full, s);
    let (st1, m) = read_fs(st, d + 1);
    assert(m == msg);
    let st2 = require(st1, cong(m[0] + m[1], claim));
    assert(msg[0] + msg[1] == whole_sum(w, coins, all, len));
    assert(!st2.ok) by {
        if cong(msg[0] + msg[1], claim) {
            assert(cong(claim, eq_sum(eq_point, tabs, g, coins)));
        }
    }
    let (st3, x) = challenge(st2);
    let st4 = require(st3, off_nodes(d, x));
    let next = if off_nodes(d, x) {
        extrapolate(d, m, x)
    } else {
        0
    };
    lemma_rounds_ok(next, nv - 1, d, st4);
}

/// What a prover sends for a sum of an expression weighted by `eq` is refused for every
/// claim but the right sum.
pub proof fn law_eq_sum_only(
    eq_point: Seq<int>,
    tabs: Seq<Seq<int>>,
    d: int,
    g: Gate,
    coins: Seq<int>,
    claim: int,
    full: Sent,
    s: Sent,
)
    requires
        gate_fits(g, tabs.len(), coins.len()),
        gate_degree(g) + 1 <= d,
        1 <= d <= u64::MAX,
        tabs.len() < usize::MAX,
        same_len(tabs, pow2(eq_point.len()) as int),
        s.ch.len() >= eq_point.len(),
        extends(full, send_eq_sum(s, eq_point, tabs, d, g, coins).0),
        !cong(claim, eq_sum(eq_point, tabs, g, coins)),
    ensures
        !verify_eq_sum(
            rest_of(full, s),
            eq_point,
            claim,
            d,
            tabs.len() as int,
            g,
            coins,
        ).0.ok,
{
    if eq_point.len() == 0 {
        reveal(verify_eq_sum);
        reveal(send_eq_sum);
        let right = eq_sum(eq_point, tabs, g, coins);
        law_eq_sum(eq_point, tabs, d, g, coins, right, full, s);
        assert(verify_eq_sum(
            rest_of(full, s),
            eq_point,
            right,
            d,
            tabs.len() as int,
            g,
            coins,
        ).0.ok);
    } else {
        lemma_first_round_only(eq_point, tabs, d, g, coins, claim, full, s);
    }
}

/// Two lines that differ, given by their values at zero and one, meet at a place.
pub open spec fn lines_meet(a: int, b: int, c: int, d: int, x: int) -> bool {
    &&& cong(a + x * (b - a), c + x * (d - c))
    &&& !(cong(a, c) && cong(b, d))
}

/// Lines that differ meet at one place only.
pub proof fn law_lines_meet_once(a: int, b: int, c: int, d: int, x: int, y: int)
    requires
        lines_meet(a, b, c, d, x),
        lines_meet(a, b, c, d, y),
    ensures
        !invertible(x - y),
{
    if invertible(x - y) {
        let u = b - a;
        let v = d - c;
        lemma_cong_ops(a + x * u, c + x * v, a + y * u, c + y * v);
        assert((a + x * u) - (a + y * u) == u * (x - y)) by (nonlinear_arith);
        assert((c + x * v) - (c + y * v) == v * (x - y)) by (nonlinear_arith);
        lemma_cong_cancel(u, v, x - y);
        lemma_cong_ops(x, x, u, v);
        lemma_cong_ops(a + x * u, c + x * v, x * u, x * v);
        assert(a + x * u - x * u == a);
        assert(c + x * v - x * v == c);
        lemma_cong_ops(a, c, u, v);
    }
}

/// A layer of a sum of fractions passes with a wrong claim: in some round messages that
/// differ meet at the challenge, the coin makes the two errors of the claim cancel, or
/// the lines of the layer below meet wrong ones at the challenge that joins them.
pub open spec fn layer_slips(p: Seq<int>, q: Seq<int>, c: LayerClaim, st: State) -> bool {
    let k = c.point.len() as int;
    let (st1, lambda) = challenge(st);
    let (x, y, st2) = verify_rounds(c.p + lambda * c.q, k, 3, st1);
    let (st3, v) = read_fs(st2, 4);
    let st4 = require(
        st3,
        cong(
            y,
            (v[0] * v[3] + v[1] * v[2] + lambda * (v[2] * v[3])) * eq_points(c.point, x, k),
        ),
    );
    let (st5, mu) = challenge(st4);
    let w = values_at(layer_tabs(p, q, c.point), x);
    ||| met(
        c.p + lambda * c.q,
        k,
        3,
        st1,
        fraction_gate(),
        seq![lambda],
        layer_tabs(p, q, c.point),
        pow2(k as nat) as int,
    )
    ||| {
        &&& cong(
            c.p + lambda * c.q,
            mle(up_num(p, q), c.point) + lambda * mle(up_den(q), c.point),
        )
        &&& !layer_right(up_num(p, q), up_den(q), c)
    }
    ||| lines_meet(v[0], v[1], w[0], w[1], mu)
    ||| lines_meet(v[2], v[3], w[2], w[3], mu)
}

/// Only one coin makes the two errors of a claim cancel.
pub proof fn law_errors_cancel_once(a: int, b: int, c: int, d: int, x: int, y: int)
    requires
        cong(a + x * b, c + x * d),
        cong(a + y * b, c + y * d),
        invertible(x - y),
    ensures
        cong(a, c),
        cong(b, d),
{
    lemma_cong_ops(a + x * b, c + x * d, a + y * b, c + y * d);
    assert((a + x * b) - (a + y * b) == b * (x - y)) by (nonlinear_arith);
    assert((c + x * d) - (c + y * d) == d * (x - y)) by (nonlinear_arith);
    lemma_cong_cancel(b, d, x - y);
    lemma_cong_ops(x, x, b, d);
    lemma_cong_ops(a + x * b, c + x * d, x * b, x * d);
    assert(a + x * b - x * b == a);
    assert(c + x * d - x * d == c);
}

/// A layer that is accepted and leaves a right claim had a right claim, unless it slips.
proof fn lemma_sound_layer(p: Seq<int>, q: Seq<int>, c: LayerClaim, st: State)
    requires
        p.len() == pow2(c.point.len() + 1),
        q.len() == p.len(),
        verify_layer(c, st).0.ok,
        layer_right(p, q, verify_layer(c, st).1),
    ensures
        layer_right(up_num(p, q), up_den(q), c) || layer_slips(p, q, c, st),
        verify_layer(c, st).1.point.len() == c.point.len() + 1,
{
    reveal(verify_layer);
    let k = c.point.len() as int;
    lemma_pow2_step(k as nat);
    let (st1, lambda) = challenge(st);
    let claim = c.p + lambda * c.q;
    let (x, y, st2) = verify_rounds(claim, k, 3, st1);
    lemma_rounds_len(claim, k, 3, st1);
    let (st3, v) = read_fs(st2, 4);
    let st4 = require(
        st3,
        cong(
            y,
            (v[0] * v[3] + v[1] * v[2] + lambda * (v[2] * v[3])) * eq_points(c.point, x, k),
        ),
    );
    let (st5, mu) = challenge(st4);
    let tabs = layer_tabs(p, q, c.point);
    let coins = seq![lambda];
    let g = fraction_gate();
    let w = values_at(tabs, x);
    lemma_layer_sum(p, q, c.point, lambda);
    lemma_fraction_value(w, coins);
    assert(w[0] == mle(tabs[0], x));
    assert(w[1] == mle(tabs[1], x));
    assert(w[2] == mle(tabs[2], x));
    assert(w[3] == mle(tabs[3], x));
    assert(w[4] == mle(tabs[4], x));
    lemma_mle_eq_table(c.point, x);
    lemma_mle_pairs(p, mu, x);
    lemma_mle_pairs(q, mu, x);
    if !layer_slips(p, q, c, st) {
        assert(cong(v[0], w[0]) && cong(v[1], w[1]));
        assert(cong(v[2], w[2]) && cong(v[3], w[3]));
        lemma_cong_ops(v[0], w[0], v[3], w[3]);
        lemma_cong_ops(v[1], w[1], v[2], w[2]);
        lemma_cong_ops(v[2], w[2], v[3], w[3]);
        lemma_cong_ops(v[0] * v[3], w[0] * w[3], v[1] * v[2], w[1] * w[2]);
        lemma_cong_ops(lambda, lambda, v[2] * v[3], w[2] * w[3]);
        lemma_cong_ops(
            v[0] * v[3] + v[1] * v[2],
            w[0] * w[3] + w[1] * w[2],
            lambda * (v[2] * v[3]),
            lambda * (w[2] * w[3]),
        );
        lemma_cong_ops(
            v[0] * v[3] + v[1] * v[2] + lambda * (v[2] * v[3]),
            w[0] * w[3] + w[1] * w[2] + lambda * (w[2] * w[3]),
            w[4],
            w[4],
        );
        law_sound_rounds(g, coins, tabs, pow2(k as nat) as int, 3, k, claim, st1);
    }
}

/// Some of the layers from that of the claim on slips.
pub open spec fn layers_slip(p: Seq<int>, q: Seq<int>, n: int, c: LayerClaim, st: State) -> bool
    decreases n,
{
    if n <= 0 {
        false
    } else {
        let (a, b) = level(p, q, n - 1);
        ||| layer_slips(a, b, c, st)
        ||| layers_slip(p, q, n - 1, verify_layer(c, st).1, verify_layer(c, st).0)
    }
}

proof fn lemma_layer_ok(c: LayerClaim, st: State)
    ensures
        verify_layer(c, st).0.ok ==> st.ok,
{
    reveal(verify_layer);
    let (st1, lambda) = challenge(st);
    lemma_rounds_ok(c.p + lambda * c.q, c.point.len() as int, 3, st1);
}

proof fn lemma_layers_ok(n: int, c: LayerClaim, st: State)
    ensures
        verify_layers(n, c, st).0.ok ==> st.ok,
    decreases n,
{
    if n > 0 {
        lemma_layers_ok(n - 1, verify_layer(c, st).1, verify_layer(c, st).0);
        lemma_layer_ok(c, st);
    }
}

proof fn lemma_sound_layers(p: Seq<int>, q: Seq<int>, n: int, c: LayerClaim, st: State)
    requires
        0 <= n,
        p.len() == pow2(n as nat + c.point.len()),
        q.len() == p.len(),
        verify_layers(n, c, st).0.ok,
        layer_right(p, q, verify_layers(n, c, st).1),
    ensures
        layer_right(level(p, q, n).0, level(p, q, n).1, c) || layers_slip(p, q, n, c, st),
    decreases n,
{
    if n > 0 {
        let (st1, d) = verify_layer(c, st);
        let (a, b) = level(p, q, n - 1);
        lemma_level_len(p, q, n as nat + c.point.len(), n - 1);
        lemma_layers_ok(n - 1, d, st1);
        assert(d.point.len() == c.point.len() + 1) by {
            reveal(verify_layer);
            let (st0, lambda) = challenge(st);
            lemma_rounds_len(c.p + lambda * c.q, c.point.len() as int, 3, st0);
        }
        lemma_sound_layers(p, q, n - 1, d, st1);
        if layer_right(a, b, d) {
            lemma_sound_layer(a, b, c, st);
        }
    }
}

/// What the check of a sum of fractions starts its layers from.
pub open spec fn fractions_start(st: State) -> (LayerClaim, State) {
    let (st1, sum) = read_f(st);
    let (st2, r) = read_fs(st1, 2);
    (
        LayerClaim { point: Seq::empty(), p: r[0], q: r[1] },
        require(st2, cong(r[0], sum * r[1]) && !cong(r[1], 0)),
    )
}

/// A check of a sum of fractions does not mend what went wrong before it.
pub proof fn lemma_fractions_ok(n: int, st: State)
    ensures
        verify_fractions(n, st).0.ok ==> st.ok,
{
    reveal(verify_fractions);
    let (c, start) = fractions_start(st);
    lemma_layers_ok(n, c, start);
}

/// The point of the leaves has as many coordinates as there are layers.
pub proof fn lemma_fractions_len(n: int, st: State)
    requires
        0 <= n,
    ensures
        verify_fractions(n, st).2.point.len() == n,
{
    reveal(verify_fractions);
    let (c, start) = fractions_start(st);
    lemma_layers_len(n, c, start);
}

proof fn lemma_layers_len(n: int, c: LayerClaim, st: State)
    requires
        0 <= n,
    ensures
        verify_layers(n, c, st).1.point.len() == c.point.len() + n,
    decreases n,
{
    if n > 0 {
        lemma_layers_len(n - 1, verify_layer(c, st).1, verify_layer(c, st).0);
        reveal(verify_layer);
        let (st0, lambda) = challenge(st);
        lemma_rounds_len(c.p + lambda * c.q, c.point.len() as int, 3, st0);
    }
}

/// A check of a sum of fractions with invertible denominators that is accepted, and leaves
/// a right claim on the numerators and the denominators, was of the right sum, unless one
/// of its layers slips.
pub proof fn law_sound_fractions(p: Seq<int>, q: Seq<int>, n: nat, st: State)
    requires
        p.len() == pow2(n),
        q.len() == p.len(),
        forall|i: int| 0 <= i < q.len() ==> invertible(#[trigger] q[i]),
        ({
            let (end, sum, c) = verify_fractions(n as int, st);
            end.ok && layer_right(p, q, c)
        }),
    ensures
        ({
            let (c, start) = fractions_start(st);
            ||| cong(verify_fractions(n as int, st).1, fraction_sum(p, q))
            ||| layers_slip(p, q, n as int, c, start)
        }),
{
    reveal(verify_fractions);
    let (c, start) = fractions_start(st);
    let sum = read_f(st).1;
    lemma_sound_layers(p, q, n as int, c, start);
    if !layers_slip(p, q, n as int, c, start) {
        let (a, b) = level(p, q, n as int);
        lemma_layers_ok(n as int, c, start);
        lemma_level_len(p, q, n, n as int);
        lemma_pow2_step(0);
        lemma_level_sum(p, q, n, n as int);
        lemma_mle_constant(a);
        lemma_mle_constant(b);
        let x = a[0];
        let y = b[0];
        assert(invertible(b[0]));
        lemma_inverse_of(y);
        let w = inverse_of(y);
        let f = |i: int| a[i] * inverse_of(b[i]);
        reveal_with_fuel(sum_to, 2);
        assert(fraction_sum(a, b) == f(0));
        assert(cong(x * w, fraction_sum(p, q)));
        lemma_cong_ops(sum, sum, c.q, y);
        assert(cong(x, sum * y));
        lemma_cong_ops(x, sum * y, w, w);
        assert((sum * y) * w == sum * (y * w)) by (nonlinear_arith);
        lemma_cong_ops(sum, sum, y * w, 1);
        assert(sum * 1 == sum);
    }
}

/// The fractions of two sequences.
pub open spec fn fractions(p: Seq<int>, q: Seq<int>) -> Seq<(int, int)> {
    Seq::new(p.len(), |i: int| (p[i], q[i]))
}

/// The sum of fractions does not depend on their order.
pub proof fn law_fraction_order(p: Seq<int>, q: Seq<int>, p1: Seq<int>, q1: Seq<int>)
    requires
        fractions(p, q).to_multiset() == fractions(p1, q1).to_multiset(),
    ensures
        fraction_sum(p, q) == fraction_sum(p1, q1),
{
    lemma_pairs_order(fractions(p, q), fractions(p1, q1));
    let a = fractions(p, q);
    let b = fractions(p1, q1);
    lemma_sum_eq(
        p.len() as int,
        |i: int| p[i] * inverse_of(q[i]),
        |i: int| a[i].0 * inverse_of(a[i].1),
    );
    lemma_sum_eq(
        p1.len() as int,
        |i: int| p1[i] * inverse_of(q1[i]),
        |i: int| b[i].0 * inverse_of(b[i].1),
    );
}

/// The sum of a list of fractions.
pub open spec fn pairs_sum(a: Seq<(int, int)>) -> int {
    sum_to(a.len() as int, |i: int| a[i].0 * inverse_of(a[i].1))
}

proof fn lemma_pairs_order(a: Seq<(int, int)>, b: Seq<(int, int)>)
    requires
        a.to_multiset() == b.to_multiset(),
    ensures
        a.len() == b.len(),
        pairs_sum(a) == pairs_sum(b),
    decreases a.len(),
{
    broadcast use vstd::seq_lib::group_to_multiset_ensures;

    assert(a.to_multiset().len() == a.len());
    assert(b.to_multiset().len() == b.len());
    if a.len() > 0 {
        let n = a.len() as int;
        let x = a[n - 1];
        assert(a.contains(x));
        assert(a.to_multiset().count(x) > 0);
        assert(b.contains(x));
        let j = choose|j: int| 0 <= j < b.len() && b[j] == x;
        let a1 = a.remove(n - 1);
        let b1 = b.remove(j);
        assert(a1.to_multiset() =~= a.to_multiset().remove(x));
        assert(b1.to_multiset() =~= b.to_multiset().remove(x));
        lemma_pairs_order(a1, b1);
        lemma_pairs_remove(a, n - 1);
        lemma_pairs_remove(b, j);
    }
}

proof fn lemma_pairs_remove(a: Seq<(int, int)>, j: int)
    requires
        0 <= j < a.len(),
    ensures
        pairs_sum(a) == pairs_sum(a.remove(j)) + a[j].0 * inverse_of(a[j].1),
{
    let n = a.len() as int;
    let rest = a.remove(j);
    let f = |i: int| a[i].0 * inverse_of(a[i].1);
    let g = |i: int| rest[i].0 * inverse_of(rest[i].1);
    assert forall|k: int| 0 <= k < j implies g(k) == #[trigger] f(k) by {
        assert(rest[k] == a[k]);
    }
    assert forall|k: int| j <= k < n - 1 implies #[trigger] g(k) == f(k + 1) by {
        assert(rest[k] == a[k + 1]);
    }
    super::agreement::lemma_sum_remove(n, f, g, j);
    assert(rest.len() == n - 1);
}

} // verus!
