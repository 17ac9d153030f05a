//! Polynomials in one variable, and what their values at the first nodes determine.
use vstd::prelude::*;
use crate::field::{
    cong, inverse_of, invertible, lemma_cong_cancel, lemma_cong_ops, lemma_inverse_of,
    lemma_invertible_mul, lemma_invertible_one,
};
use crate::sumcheck::{
    Gate, extrapolate, gate_degree, gate_value, lemma_node_invertible, node_factor, node_product,
    off_nodes,
};
use crate::sums::{
    lemma_product_eq, lemma_sum_add, lemma_sum_eq, lemma_sum_scale, lemma_sum_single, lemma_sum_sub,
    product_to, sum_to,
};
use crate::units::law_word_invertible;

verus! {

/// The value at `x` of the polynomial with the given coefficients, the constant one
/// first.
pub open spec fn peval(c: Seq<int>, x: int) -> int
    decreases c.len(),
{
    if c.len() == 0 {
        0
    } else {
        c[0] + x * peval(c.drop_first(), x)
    }
}

/// The sum of two polynomials.
pub open spec fn padd(a: Seq<int>, b: Seq<int>) -> Seq<int>
    decreases a.len(),
{
    if a.len() == 0 {
        b
    } else if b.len() == 0 {
        a
    } else {
        seq![a[0] + b[0]] + padd(a.drop_first(), b.drop_first())
    }
}

/// A multiple of a polynomial.
pub open spec fn pscale(k: int, a: Seq<int>) -> Seq<int> {
    a.map_values(|x: int| k * x)
}

/// The product of two polynomials.
pub open spec fn pmul(a: Seq<int>, b: Seq<int>) -> Seq<int>
    decreases a.len(),
{
    if a.len() == 0 {
        Seq::empty()
    } else {
        padd(pscale(a[0], b), seq![0int] + pmul(a.drop_first(), b))
    }
}

proof fn lemma_peval_cons(k: int, c: Seq<int>, x: int)
    ensures
        peval(seq![k] + c, x) == k + x * peval(c, x),
{
    assert((seq![k] + c).drop_first() =~= c);
}

pub proof fn lemma_padd(a: Seq<int>, b: Seq<int>, x: int)
    ensures
        peval(padd(a, b), x) == peval(a, x) + peval(b, x),
        padd(a, b).len() == if a.len() >= b.len() {
            a.len()
        } else {
            b.len()
        },
    decreases a.len(),
{
    if a.len() > 0 && b.len() > 0 {
        let a1 = a.drop_first();
        let b1 = b.drop_first();
        lemma_padd(a1, b1, x);
        lemma_peval_cons(a[0] + b[0], padd(a1, b1), x);
        assert(x * (peval(a1, x) + peval(b1, x)) == x * peval(a1, x) + x * peval(b1, x))
            by (nonlinear_arith);
    }
}

pub proof fn lemma_pscale(k: int, a: Seq<int>, x: int)
    ensures
        peval(pscale(k, a), x) == k * peval(a, x),
    decreases a.len(),
{
    if a.len() > 0 {
        lemma_pscale(k, a.drop_first(), x);
        assert(pscale(k, a).drop_first() =~= pscale(k, a.drop_first()));
        let p = peval(a.drop_first(), x);
        assert(k * (a[0] + x * p) == k * a[0] + x * (k * p)) by (nonlinear_arith);
    } else {
        assert(k * 0 == 0);
    }
}

pub proof fn lemma_pmul(a: Seq<int>, b: Seq<int>, x: int)
    ensures
        peval(pmul(a, b), x) == peval(a, x) * peval(b, x),
        a.len() > 0 && b.len() > 0 ==> pmul(a, b).len() <= a.len() + b.len() - 1,
        a.len() == 0 ==> pmul(a, b).len() == 0,
    decreases a.len(),
{
    if a.len() > 0 {
        let a1 = a.drop_first();
        let rest = pmul(a1, b);
        lemma_pmul(a1, b, x);
        lemma_pscale(a[0], b, x);
        lemma_padd(pscale(a[0], b), seq![0int] + rest, x);
        lemma_peval_cons(0, rest, x);
        let p = peval(a1, x);
        let q = peval(b, x);
        assert(a[0] * q + (0 + x * (p * q)) == (a[0] + x * p) * q) by (nonlinear_arith);
    }
}

/// The coefficients of an expression along a line.
pub open spec fn gate_poly(g: Gate, lo: Seq<int>, step: Seq<int>, coins: Seq<int>) -> Seq<int>
    decreases g,
{
    match g {
        Gate::Constant(x) => seq![x as int],
        Gate::Var(i) => seq![lo[i as int], step[i as int]],
        Gate::Coin(i) => seq![coins[i as int]],
        Gate::Add(a, b) => padd(
            gate_poly(*a, lo, step, coins),
            gate_poly(*b, lo, step, coins),
        ),
        Gate::Sub(a, b) => padd(
            gate_poly(*a, lo, step, coins),
            pscale(-1, gate_poly(*b, lo, step, coins)),
        ),
        Gate::Mul(a, b) => pmul(
            gate_poly(*a, lo, step, coins),
            gate_poly(*b, lo, step, coins),
        ),
    }
}

/// Along a line an expression is a polynomial of its degree.
pub proof fn lemma_gate_poly(
    g: Gate,
    lo: Seq<int>,
    step: Seq<int>,
    coins: Seq<int>,
    vars: nat,
    v: Seq<int>,
    x: int,
)
    requires
        crate::sumcheck::gate_fits(g, vars, coins.len()),
        forall|i: int| 0 <= i < vars ==> #[trigger] v[i] == lo[i] + step[i] * x,
    ensures
        gate_value(g, v, coins) == peval(gate_poly(g, lo, step, coins), x),
        0 < gate_poly(g, lo, step, coins).len() <= gate_degree(g) + 1,
    decreases g,
{
    reveal_with_fuel(peval, 3);
    match g {
        Gate::Constant(k) => {
            assert(x * 0 == 0);
        },
        Gate::Coin(i) => {
            assert(x * 0 == 0);
        },
        Gate::Var(i) => {
            let c = gate_poly(g, lo, step, coins);
            assert(c.drop_first() =~= seq![step[i as int]]);
            let k = step[i as int];
            assert(x * 0 == 0);
            assert(x * (k + 0) == k * x) by (nonlinear_arith);
            assert(v[i as int] == lo[i as int] + k * x);
        },
        Gate::Add(a, b) => {
            lemma_gate_poly(*a, lo, step, coins, vars, v, x);
            lemma_gate_poly(*b, lo, step, coins, vars, v, x);
            lemma_padd(gate_poly(*a, lo, step, coins), gate_poly(*b, lo, step, coins), x);
        },
        Gate::Sub(a, b) => {
            lemma_gate_poly(*a, lo, step, coins, vars, v, x);
            lemma_gate_poly(*b, lo, step, coins, vars, v, x);
            let p = gate_poly(*b, lo, step, coins);
            lemma_pscale(-1, p, x);
            lemma_padd(gate_poly(*a, lo, step, coins), pscale(-1, p), x);
        },
        Gate::Mul(a, b) => {
            lemma_gate_poly(*a, lo, step, coins, vars, v, x);
            lemma_gate_poly(*b, lo, step, coins, vars, v, x);
            lemma_pmul(gate_poly(*a, lo, step, coins), gate_poly(*b, lo, step, coins), x);
            lemma_pmul_nonempty(
                gate_poly(*a, lo, step, coins),
                gate_poly(*b, lo, step, coins),
            );
        },
    }
}

proof fn lemma_pmul_nonempty(a: Seq<int>, b: Seq<int>)
    requires
        a.len() > 0,
        b.len() > 0,
    ensures
        pmul(a, b).len() > 0,
{
    lemma_padd(pscale(a[0], b), seq![0int] + pmul(a.drop_first(), b), 0);
}

/// The sum of polynomials `f(0)` up to `f(n - 1)`.
pub open spec fn psum(n: int, f: spec_fn(int) -> Seq<int>) -> Seq<int>
    decreases n,
{
    if n <= 0 {
        Seq::empty()
    } else {
        padd(psum(n - 1, f), f(n - 1))
    }
}

pub proof fn lemma_psum(n: int, f: spec_fn(int) -> Seq<int>, d: nat, x: int)
    requires
        forall|i: int| 0 <= i < n ==> (#[trigger] f(i)).len() <= d,
    ensures
        peval(psum(n, f), x) == sum_to(n, |i: int| peval(f(i), x)),
        psum(n, f).len() <= d,
    decreases n,
{
    if n > 0 {
        lemma_psum(n - 1, f, d, x);
        lemma_padd(psum(n - 1, f), f(n - 1), x);
    }
}

/// The product of the first `n` numbers.
pub open spec fn fact(n: int) -> int
    decreases n,
{
    if n <= 0 {
        1
    } else {
        n * fact(n - 1)
    }
}

/// The binomial coefficients of a row, with alternating signs: the last is one.
pub open spec fn signed_binomial(d: int, i: int) -> int
    decreases d,
{
    if i < 0 || i > d {
        0
    } else if d <= 0 {
        1
    } else {
        signed_binomial(d - 1, i - 1) - signed_binomial(d - 1, i)
    }
}

/// The difference of `x` to node `j`, or one for node `i`.
pub open spec fn other_factor(i: int, x: int, j: int) -> int {
    if j == i {
        1
    } else {
        x - j
    }
}

/// The product of the differences of `x` to the nodes up to `d` but for `i`.
pub open spec fn others(d: int, i: int, x: int) -> int {
    product_to(d + 1, |j: int| other_factor(i, x, j))
}

proof fn lemma_others_step(d: int, i: int, x: int)
    requires
        0 <= d,
    ensures
        0 <= i <= d ==> others(d + 1, i, x) == others(d, i, x) * (x - (d + 1)),
        1 <= i <= d + 1 ==> others(d + 1, i, x) == x * others(d, i - 1, x - 1),
        d == 0 && i == 0 ==> others(d, i, x) == 1,
    decreases d,
{
    let f = |j: int| other_factor(i, x, j);
    let g = |j: int| other_factor(i - 1, x - 1, j);
    reveal_with_fuel(product_to, 3);
    if 1 <= i <= d + 1 {
        lemma_product_shift(d + 1, i, x);
    }
}

/// The product over the nodes from one on, seen from the node before.
proof fn lemma_product_shift(n: int, i: int, x: int)
    requires
        0 <= n,
        1 <= i,
    ensures
        product_to(n + 1, |j: int| other_factor(i, x, j)) == x * product_to(
            n,
            |j: int| other_factor(i - 1, x - 1, j),
        ),
    decreases n,
{
    let f = |j: int| other_factor(i, x, j);
    let g = |j: int| other_factor(i - 1, x - 1, j);
    if n == 0 {
        reveal_with_fuel(product_to, 2);
        assert(1 * f(0) == x * 1);
    } else {
        lemma_product_shift(n - 1, i, x);
        assert(f(n) == g(n - 1));
        let p = product_to(n - 1, g);
        let k = g(n - 1);
        assert((x * p) * k == x * (p * k)) by (nonlinear_arith);
    }
}

/// The product of a node's differences to the others, times its binomial coefficient.
proof fn lemma_binomial(d: int, i: int)
    requires
        0 <= i <= d,
    ensures
        others(d, i, i) * signed_binomial(d, i) == fact(d),
        others(d, i, i) != 0,
    decreases d,
{
    if d == 0 {
        lemma_others_step(0, 0, 0);
        assert(signed_binomial(0, 0) == 1);
    } else {
        lemma_others_step(d - 1, i, i);
        let w = others(d, i, i);
        let a = signed_binomial(d - 1, i - 1);
        let b = signed_binomial(d - 1, i);
        let f = fact(d - 1);
        assert(w * (a - b) == w * a - w * b) by (nonlinear_arith);
        if i >= 1 {
            lemma_binomial(d - 1, i - 1);
            let u = others(d - 1, i - 1, i - 1);
            assert(w == i * u);
            assert((i * u) * a == i * (u * a)) by (nonlinear_arith);
            assert(i * u != 0) by (nonlinear_arith)
                requires
                    i >= 1,
                    u != 0,
            ;
        }
        if i <= d - 1 {
            lemma_binomial(d - 1, i);
            let u = others(d - 1, i, i);
            assert(w == u * (i - d));
            assert((u * (i - d)) * b == (i - d) * (u * b)) by (nonlinear_arith);
            assert(u * (i - d) != 0) by (nonlinear_arith)
                requires
                    i < d,
                    u != 0,
            ;
        }
        if i == 0 {
            assert(a == 0 && w * a == 0);
            assert(0 - (i - d) * f == d * f) by (nonlinear_arith)
                requires
                    i == 0,
            ;
        } else if i == d {
            assert(b == 0 && w * b == 0);
        } else {
            assert(i * f - (i - d) * f == d * f) by (nonlinear_arith);
        }
    }
}

/// A binomial coefficient absorbs the distance to the last node.
proof fn lemma_absorb(d: int, i: int)
    requires
        0 <= i <= d,
    ensures
        signed_binomial(d + 1, i) * (i - (d + 1)) == (d + 1) * signed_binomial(d, i),
{
    lemma_binomial(d, i);
    lemma_binomial(d + 1, i);
    lemma_others_step(d, i, i);
    let u = others(d, i, i);
    let s = signed_binomial(d + 1, i);
    let t = signed_binomial(d, i);
    let k = i - (d + 1);
    let f = fact(d);
    assert((u * k) * s == (d + 1) * f);
    assert((u * k) * s == u * (s * k)) by (nonlinear_arith);
    assert((d + 1) * (u * t) == u * ((d + 1) * t)) by (nonlinear_arith);
    assert(u * (s * k) == u * ((d + 1) * t));
    assert(s * k == (d + 1) * t) by (nonlinear_arith)
        requires
            u != 0,
            u * (s * k) == u * ((d + 1) * t),
    ;
}

/// The weighted sum of values at the nodes that stands for a polynomial at `x`.
pub open spec fn node_sum(d: int, v: spec_fn(int) -> int, x: int) -> int {
    sum_to(d + 1, |i: int| signed_binomial(d, i) * others(d, i, x) * v(i))
}

/// The weights of the nodes add up.
proof fn lemma_node_sum_one(d: int, x: int)
    requires
        0 <= d,
    ensures
        node_sum(d, |i: int| 1int, x) == fact(d),
    decreases d,
{
    let one = |i: int| 1int;
    let t = |i: int| signed_binomial(d, i) * others(d, i, x) * one(i);
    if d == 0 {
        reveal_with_fuel(sum_to, 2);
        lemma_others_step(0, 0, x);
        assert(signed_binomial(0, 0) == 1);
    } else {
        let e = d - 1;
        lemma_node_sum_one(e, x);
        lemma_node_sum_one(e, x - 1);
        let lower = |i: int| signed_binomial(e, i) * others(e, i, x) * one(i);
        let shifted = |i: int| signed_binomial(e, i) * others(e, i, x - 1) * one(i);
        let sh = |i: int| if i >= 1 { shifted(i - 1) } else { 0 };
        let lo = |i: int| if i <= e { lower(i) } else { 0 };
        let a = |i: int| x * sh(i);
        let b = |i: int| (d - x) * lo(i);
        assert forall|i: int| 0 <= i < d + 1 implies #[trigger] t(i) == (|i: int| a(i) + b(i))(
            i,
        ) by {
            lemma_others_step(e, i, x);
            let p = signed_binomial(e, i - 1);
            let q = signed_binomial(e, i);
            let w = others(d, i, x);
            assert((p - q) * w == p * w - q * w) by (nonlinear_arith);
            if i >= 1 {
                let u = others(e, i - 1, x - 1);
                assert(p * (x * u) == x * (p * u)) by (nonlinear_arith);
                assert(sh(i) == p * u * 1);
                assert(p * w == a(i));
            } else {
                assert(p == 0 && p * w == 0 && x * 0 == 0);
                assert(a(i) == 0);
            }
            if i <= e {
                let u = others(e, i, x);
                assert(q * (u * (x - d)) == -((d - x) * (q * u))) by (nonlinear_arith);
                assert(lo(i) == q * u * 1);
                assert(q * w == -b(i));
            } else {
                assert(q == 0 && q * w == 0 && (d - x) * 0 == 0);
                assert(b(i) == 0);
            }
            assert(t(i) == (p - q) * w * 1);
        }
        lemma_sum_eq(d + 1, t, |i: int| a(i) + b(i));
        lemma_sum_add(d + 1, a, b);
        lemma_sum_scale(d + 1, x, sh);
        lemma_sum_scale(d + 1, d - x, lo);
        lemma_sum_eq(d, lo, lower);
        lemma_sum_from_one(d, sh, shifted);
        let f = fact(e);
        assert(x * f + (d - x) * f == d * f) by (nonlinear_arith);
    }
}

/// A sum whose first term is zero is the sum over the terms after it.
proof fn lemma_sum_from_one(n: int, f: spec_fn(int) -> int, g: spec_fn(int) -> int)
    requires
        0 <= n,
        f(0) == 0,
        forall|i: int| 0 <= i < n ==> f(i + 1) == #[trigger] g(i),
    ensures
        sum_to(n + 1, f) == sum_to(n, g),
    decreases n,
{
    if n == 0 {
        reveal_with_fuel(sum_to, 2);
    } else {
        lemma_sum_from_one(n - 1, f, g);
        assert(f(n - 1 + 1) == g(n - 1));
    }
}

/// The quotient of a polynomial by `x - a`, without the remainder.
pub open spec fn quotient(c: Seq<int>, a: int) -> Seq<int>
    decreases c.len(),
{
    if c.len() <= 1 {
        Seq::empty()
    } else {
        let q = quotient(c.drop_first(), a);
        seq![peval(c.drop_first(), a)] + q
    }
}

proof fn lemma_quotient(c: Seq<int>, a: int, x: int)
    ensures
        peval(c, x) == peval(c, a) + (x - a) * peval(quotient(c, a), x),
        quotient(c, a).len() == if c.len() >= 1 {
            (c.len() - 1) as nat
        } else {
            0
        },
    decreases c.len(),
{
    assert((x - a) * 0 == 0);
    if c.len() == 0 {
    } else if c.len() == 1 {
        let r = c.drop_first();
        assert(r.len() == 0);
        assert(peval(r, x) == 0 && peval(r, a) == 0);
        assert(peval(quotient(c, a), x) == 0);
        assert(x * 0 == 0 && a * 0 == 0 && (x - a) * 0 == 0);
    } else {
        let r = c.drop_first();
        let q = quotient(r, a);
        lemma_quotient(r, a, x);
        lemma_peval_cons(peval(r, a), q, x);
        let ra = peval(r, a);
        let qx = peval(q, x);
        let m = peval(quotient(c, a), x);
        assert(quotient(c, a) == seq![ra] + q);
        assert(m == ra + x * qx);
        assert(peval(c, x) == c[0] + x * peval(r, x));
        assert(peval(c, a) == c[0] + a * ra);
        assert(x * (ra + (x - a) * qx) == a * ra + (x - a) * m) by (nonlinear_arith)
            requires
                m == ra + x * qx,
        ;
    }
}

/// The values at the nodes up to `d` determine a polynomial of degree at most `d`.
pub proof fn lemma_node_sum(d: int, c: Seq<int>, x: int)
    requires
        0 <= d,
        c.len() <= d + 1,
    ensures
        node_sum(d, |i: int| peval(c, i), x) == fact(d) * peval(c, x),
    decreases d,
{
    let v = |i: int| peval(c, i);
    let t = |i: int| signed_binomial(d, i) * others(d, i, x) * v(i);
    if d == 0 {
        reveal_with_fuel(sum_to, 2);
        lemma_others_step(0, 0, x);
        assert(signed_binomial(0, 0) == 1);
        lemma_quotient(c, 0, x);
        assert((x - 0) * 0 == 0);
        assert(peval(quotient(c, 0), x) == 0);
    } else {
        let e = d - 1;
        let q = quotient(c, d);
        lemma_quotient(c, d, x);
        lemma_node_sum(e, q, x);
        lemma_node_sum_one(d, x);
        let pd = peval(c, d);
        let one = |i: int| 1int;
        let base = |i: int| signed_binomial(d, i) * others(d, i, x) * one(i);
        let u = |i: int| peval(q, i);
        let low = |i: int| signed_binomial(e, i) * others(e, i, x) * u(i);
        let lo = |i: int| if i <= e { low(i) } else { 0 };
        let k = d * (x - d);
        let a = |i: int| pd * base(i);
        let b = |i: int| k * lo(i);
        assert forall|i: int| 0 <= i < d + 1 implies #[trigger] t(i) == (|i: int| a(i) + b(i))(
            i,
        ) by {
            lemma_quotient(c, d, i);
            let s = signed_binomial(d, i);
            let w = others(d, i, x);
            let z = peval(q, i);
            assert(s * w * (pd + (i - d) * z) == pd * (s * w * 1) + (s * (i - d)) * (w * z))
                by (nonlinear_arith);
            if i <= e {
                lemma_absorb(e, i);
                lemma_others_step(e, i, x);
                let y = others(e, i, x);
                let r = signed_binomial(e, i);
                assert((d * r) * ((y * (x - d)) * z) == (d * (x - d)) * (r * y * z))
                    by (nonlinear_arith);
            } else {
                assert(s * 0 == 0 && 0 * (w * z) == 0 && k * 0 == 0);
            }
        }
        lemma_sum_eq(d + 1, t, |i: int| a(i) + b(i));
        lemma_sum_add(d + 1, a, b);
        lemma_sum_scale(d + 1, pd, base);
        lemma_sum_scale(d + 1, k, lo);
        lemma_sum_eq(d, lo, low);
        let f = fact(e);
        let qx = peval(q, x);
        assert(pd * (d * f) + (d * (x - d)) * (f * qx) == (d * f) * (pd + (x - d) * qx))
            by (nonlinear_arith);
    }
}

/// The product of the first numbers has an inverse.
proof fn lemma_fact_invertible(d: int)
    requires
        0 <= d <= u64::MAX,
    ensures
        invertible(fact(d)),
    decreases d,
{
    if d == 0 {
        lemma_invertible_one();
    } else {
        lemma_fact_invertible(d - 1);
        law_word_invertible(d);
        lemma_invertible_mul(d, fact(d - 1));
    }
}

/// All differences to the nodes multiply to those to the other nodes and to one.
proof fn lemma_others_whole(d: int, i: int, x: int, n: int)
    requires
        0 <= i,
        0 <= n,
    ensures
        product_to(n, |j: int| x - j) == product_to(
            n,
            |j: int| other_factor(i, x, j),
        ) * (if i < n { x - i } else { 1 }),
    decreases n,
{
    if n > 0 {
        lemma_others_whole(d, i, x, n - 1);
        let p = product_to(n - 1, |j: int| other_factor(i, x, j));
        let k = x - (n - 1);
        if i == n - 1 {
            assert(p * 1 * k == p * 1 * k);
            assert((p * 1) * k == (p * k) && (p * 1) * (x - i) == p * k);
        } else if i < n - 1 {
            assert((p * (x - i)) * k == (p * k) * (x - i)) by (nonlinear_arith);
        } else {
            assert((p * 1) * k == (p * k) * 1);
        }
    }
}

/// The verifier's formula gives the value of a polynomial from its values at the
/// nodes.
pub proof fn law_extrapolate(d: int, c: Seq<int>, v: Seq<int>, x: int)
    requires
        0 <= d <= u64::MAX,
        c.len() <= d + 1,
        v.len() == d + 1,
        forall|i: int| 0 <= i <= d ==> #[trigger] v[i] == peval(c, i),
        off_nodes(d, x),
    ensures
        cong(extrapolate(d, v, x), peval(c, x)),
{
    let w = |i: int| peval(c, i);
    let all = product_to(d + 1, |i: int| x - i);
    let t = |i: int| inverse_of(x - i) * inverse_of(node_product(d, i)) * v[i];
    let s = |i: int| signed_binomial(d, i) * others(d, i, x) * w(i);
    let f = fact(d);
    assert forall|i: int| 0 <= i < d + 1 implies cong(f * (all * #[trigger] t(i)), s(i)) by {
        assert(invertible(x - i));
        lemma_inverse_of(x - i);
        lemma_node_invertible(d, i);
        lemma_inverse_of(node_product(d, i));
        lemma_binomial(d, i);
        lemma_others_whole(d, i, x, d + 1);
        let o = others(d, i, x);
        let n = node_product(d, i);
        lemma_product_eq(
            d + 1,
            |j: int| node_factor(i, j),
            |j: int| other_factor(i, i, j),
        );
        let a = inverse_of(x - i);
        let b = inverse_of(n);
        let g = signed_binomial(d, i);
        let y = v[i];
        let p = x - i;
        assert(n * g == f);
        assert((o * p) * (a * b * y) == (p * a) * (b * (o * y))) by (nonlinear_arith);
        let m = b * (o * y);
        assert((n * g) * ((p * a) * m) == (p * a) * ((n * g) * m)) by (nonlinear_arith);
        assert((n * g) * (b * (o * y)) == (n * b) * (g * o * y)) by (nonlinear_arith);
        lemma_cong_ops(n * b, 1, g * o * y, g * o * y);
        lemma_cong_ops(p * a, 1, (n * b) * (g * o * y), 1 * (g * o * y));
        assert(1 * (1 * (g * o * y)) == g * o * y);
        assert(all == o * p);
        assert(f * (all * t(i)) == (p * a) * ((n * b) * (g * o * y)));
        assert(s(i) == g * o * y);
    }
    let ft = |i: int| f * (all * t(i));
    lemma_sum_cong(d + 1, ft, s);
    let at = |i: int| all * t(i);
    lemma_sum_eq(d + 1, ft, |i: int| f * at(i));
    lemma_sum_scale(d + 1, f, at);
    lemma_sum_scale(d + 1, all, t);
    lemma_node_sum(d, c, x);
    let e = sum_to(d + 1, t);
    assert(f * (all * e) == (e * all) * f) by (nonlinear_arith);
    assert(f * peval(c, x) == peval(c, x) * f) by (nonlinear_arith);
    lemma_fact_invertible(d);
    lemma_cong_cancel(extrapolate(d, v, x), peval(c, x), f);
}

/// Sums of congruent terms are congruent.
pub proof fn lemma_sum_cong(n: int, f: spec_fn(int) -> int, g: spec_fn(int) -> int)
    requires
        forall|i: int| 0 <= i < n ==> cong(#[trigger] f(i), g(i)),
    ensures
        cong(sum_to(n, f), sum_to(n, g)),
    decreases n,
{
    if n > 0 {
        lemma_sum_cong(n - 1, f, g);
        lemma_cong_ops(sum_to(n - 1, f), sum_to(n - 1, g), f(n - 1), g(n - 1));
    }
}

/// A polynomial is zero if its value at a place and its quotient there are.
proof fn lemma_quotient_zero(c: Seq<int>, g: int)
    requires
        c.len() >= 1,
        cong(peval(c, g), 0),
        forall|j: int| 0 <= j < c.len() - 1 ==> cong(#[trigger] quotient(c, g)[j], 0),
    ensures
        forall|j: int| 0 <= j < c.len() ==> cong(#[trigger] c[j], 0),
    decreases c.len(),
{
    let rest = c.drop_first();
    let v = peval(rest, g);
    if c.len() == 1 {
        assert(v == 0);
        assert(g * 0 == 0);
    } else {
        let q = quotient(c, g);
        let r = quotient(rest, g);
        lemma_quotient(rest, g, 0);
        assert(cong(q[0], 0));
        assert forall|j: int| 0 <= j < rest.len() - 1 implies cong(#[trigger] r[j], 0) by {
            assert(q[j + 1] == r[j]);
        }
        lemma_quotient_zero(rest, g);
        lemma_cong_ops(g, g, v, 0);
        assert(g * 0 == 0);
        lemma_cong_ops(c[0] + g * v, 0, g * v, 0);
        assert forall|j: int| 0 <= j < c.len() implies cong(#[trigger] c[j], 0) by {
            if j > 0 {
                assert(c[j] == rest[j - 1]);
            }
        }
    }
}

/// Places no two of which coincide: their differences are invertible.
pub open spec fn far_apart(g: Seq<int>) -> bool {
    forall|i: int, j: int|
        0 <= i < g.len() && 0 <= j < g.len() && i != j ==> invertible(
            #[trigger] g[i] - #[trigger] g[j],
        )
}

/// A polynomial that vanishes at as many places as it has coefficients is zero.
pub proof fn law_roots(c: Seq<int>, g: Seq<int>)
    requires
        c.len() <= g.len(),
        far_apart(g),
        forall|k: int| 0 <= k < c.len() ==> cong(peval(c, #[trigger] g[k]), 0),
    ensures
        forall|j: int| 0 <= j < c.len() ==> cong(#[trigger] c[j], 0),
    decreases c.len(),
{
    if c.len() > 0 {
        let n = c.len() as int;
        let x = g[n - 1];
        let q = quotient(c, x);
        lemma_quotient(c, x, 0);
        assert forall|k: int| 0 <= k < q.len() implies cong(peval(q, #[trigger] g[k]), 0) by {
            lemma_quotient(c, x, g[k]);
            let d = g[k] - x;
            let y = peval(q, g[k]);
            lemma_cong_ops(peval(c, g[k]), 0, peval(c, x), 0);
            assert(invertible(g[k] - g[n - 1]));
            assert(d * y == y * d) by (nonlinear_arith);
            assert(0 * d == 0);
            lemma_cong_cancel(y, 0, d);
        }
        law_roots(q, g);
        lemma_quotient_zero(c, x);
    }
}

/// A polynomial with zero coefficients vanishes.
pub proof fn lemma_peval_zero(c: Seq<int>, x: int)
    requires
        forall|j: int| 0 <= j < c.len() ==> cong(#[trigger] c[j], 0),
    ensures
        cong(peval(c, x), 0),
    decreases c.len(),
{
    if c.len() > 0 {
        let rest = c.drop_first();
        assert forall|j: int| 0 <= j < rest.len() implies cong(#[trigger] rest[j], 0) by {
            assert(rest[j] == c[j + 1]);
        }
        lemma_peval_zero(rest, x);
        lemma_cong_ops(x, x, peval(rest, x), 0);
        assert(x * 0 == 0);
        assert(cong(c[0], 0));
        lemma_cong_ops(c[0], 0, x * peval(rest, x), 0);
    }
}

/// The polynomial that vanishes at the first `n` nodes but for node `i`.
pub open spec fn basis(n: int, i: int) -> Seq<int>
    decreases n,
{
    if n <= 0 {
        seq![1]
    } else if n - 1 == i {
        basis(n - 1, i)
    } else {
        pmul(basis(n - 1, i), seq![-(n - 1), 1])
    }
}

proof fn lemma_basis(n: int, i: int, x: int)
    requires
        0 <= n,
        0 <= i,
    ensures
        peval(basis(n, i), x) == product_to(n, |j: int| other_factor(i, x, j)),
        0 < basis(n, i).len() <= (if i < n { n } else { n + 1 }),
    decreases n,
{
    if n <= 0 {
        lemma_peval_cons(1, Seq::empty(), x);
        assert(seq![1int] =~= seq![1int] + Seq::<int>::empty());
        assert(x * 0 == 0);
    } else {
        lemma_basis(n - 1, i, x);
        let b = basis(n - 1, i);
        let p = product_to(n - 1, |j: int| other_factor(i, x, j));
        if n - 1 == i {
            assert(p * 1 == p);
        } else {
            let f = seq![-(n - 1), 1];
            lemma_pmul(b, f, x);
            lemma_pmul_nonempty(b, f);
            assert(peval(f, x) == x - (n - 1)) by {
                reveal_with_fuel(peval, 3);
                assert(x * 0 == 0 && x * 1 == x);
            }
        }
    }
}

/// The polynomial with given values at the nodes up to `d`, times the product of the first
/// `d` numbers.
pub open spec fn through(d: int, w: Seq<int>) -> Seq<int> {
    psum(d + 1, |i: int| pscale(signed_binomial(d, i) * w[i], basis(d + 1, i)))
}

proof fn lemma_through(d: int, w: Seq<int>, x: int)
    requires
        0 <= d,
    ensures
        through(d, w).len() <= d + 1,
        peval(through(d, w), x) == sum_to(
            d + 1,
            |i: int| signed_binomial(d, i) * w[i] * others(d, i, x),
        ),
{
    let f = |i: int| pscale(signed_binomial(d, i) * w[i], basis(d + 1, i));
    assert forall|i: int| 0 <= i < d + 1 implies (#[trigger] f(i)).len() <= (d + 1) as nat by {
        lemma_basis(d + 1, i, x);
    }
    lemma_psum(d + 1, f, (d + 1) as nat, x);
    let a = |i: int| peval(f(i), x);
    let b = |i: int| signed_binomial(d, i) * w[i] * others(d, i, x);
    assert forall|i: int| 0 <= i < d + 1 implies #[trigger] a(i) == b(i) by {
        lemma_basis(d + 1, i, x);
        lemma_pscale(signed_binomial(d, i) * w[i], basis(d + 1, i), x);
    }
    lemma_sum_eq(d + 1, a, b);
}

/// A product with a factor of zero is zero.
proof fn lemma_product_zero(n: int, f: spec_fn(int) -> int, k: int)
    requires
        0 <= k < n,
        f(k) == 0,
    ensures
        product_to(n, f) == 0,
    decreases n,
{
    if k == n - 1 {
        let p = product_to(n - 1, f);
        assert(p * 0 == 0);
    } else {
        lemma_product_zero(n - 1, f, k);
        let y = f(n - 1);
        assert(0 * y == 0);
    }
}

proof fn lemma_through_node(d: int, w: Seq<int>, k: int)
    requires
        0 <= k <= d,
    ensures
        peval(through(d, w), k) == fact(d) * w[k],
{
    lemma_through(d, w, k);
    let b = |i: int| signed_binomial(d, i) * w[i] * others(d, i, k);
    assert forall|i: int| 0 <= i < d + 1 && i != k implies #[trigger] b(i) == 0 by {
        let f = |j: int| other_factor(i, k, j);
        assert(f(k) == 0);
        lemma_product_zero(d + 1, f, k);
        let y = signed_binomial(d, i) * w[i];
        assert(y * 0 == 0);
    }
    lemma_sum_single(d + 1, k, b);
    lemma_binomial(d, k);
    let s = signed_binomial(d, k);
    let o = others(d, k, k);
    let y = w[k];
    assert(s * y * o == (o * s) * y) by (nonlinear_arith);
}

/// Messages of a round that meet at more places than their degree, off the nodes, are the
/// same field elements.
pub proof fn law_meet(d: int, u: Seq<int>, v: Seq<int>, xs: Seq<int>)
    requires
        0 <= d <= u64::MAX,
        u.len() == d + 1,
        v.len() == d + 1,
        xs.len() > d,
        far_apart(xs),
        forall|k: int| 0 <= k < xs.len() ==> off_nodes(d, #[trigger] xs[k]),
        forall|k: int|
            0 <= k < xs.len() ==> cong(
                extrapolate(d, u, #[trigger] xs[k]),
                extrapolate(d, v, xs[k]),
            ),
    ensures
        forall|i: int| 0 <= i <= d ==> cong(#[trigger] u[i], v[i]),
{
    let f = fact(d);
    let w = Seq::new((d + 1) as nat, |i: int| u[i] - v[i]);
    let fw = Seq::new((d + 1) as nat, |i: int| f * w[i]);
    let c = through(d, w);
    lemma_through(d, w, 0);
    assert forall|i: int| 0 <= i <= d implies #[trigger] fw[i] == peval(c, i) by {
        lemma_through_node(d, w, i);
    }
    assert forall|k: int| 0 <= k < c.len() implies cong(peval(c, #[trigger] xs[k]), 0) by {
        let x = xs[k];
        law_extrapolate(d, c, fw, x);
        lemma_extrapolate_linear(d, f, u, v, fw, x);
        let a = extrapolate(d, u, x);
        let b = extrapolate(d, v, x);
        lemma_cong_ops(a, b, b, b);
        lemma_cong_ops(f, f, a - b, b - b);
        assert(f * 0 == 0);
    }
    law_roots(c, xs);
    lemma_fact_invertible(d);
    assert forall|i: int| 0 <= i <= d implies cong(#[trigger] u[i], v[i]) by {
        lemma_peval_zero(c, i);
        lemma_through_node(d, w, i);
        let y = w[i];
        assert(f * y == y * f) by (nonlinear_arith);
        assert(0 * f == 0);
        lemma_cong_cancel(y, 0, f);
        lemma_cong_ops(u[i] - v[i], 0, v[i], v[i]);
    }
}

proof fn lemma_extrapolate_linear(
    d: int,
    f: int,
    u: Seq<int>,
    v: Seq<int>,
    fw: Seq<int>,
    x: int,
)
    requires
        forall|i: int| 0 <= i <= d ==> #[trigger] fw[i] == f * (u[i] - v[i]),
    ensures
        extrapolate(d, fw, x) == f * (extrapolate(d, u, x) - extrapolate(d, v, x)),
{
    let all = product_to(d + 1, |i: int| x - i);
    let k = |i: int| inverse_of(x - i) * inverse_of(node_product(d, i));
    let a = |i: int| inverse_of(x - i) * inverse_of(node_product(d, i)) * u[i];
    let b = |i: int| inverse_of(x - i) * inverse_of(node_product(d, i)) * v[i];
    let c = |i: int| inverse_of(x - i) * inverse_of(node_product(d, i)) * fw[i];
    let ab = |i: int| a(i) - b(i);
    let fab = |i: int| f * ab(i);
    assert forall|i: int| 0 <= i < d + 1 implies #[trigger] c(i) == fab(i) by {
        let y = k(i);
        let p = u[i];
        let q = v[i];
        assert(fw[i] == f * (p - q));
        assert(y * (f * (p - q)) == f * (y * p - y * q)) by (nonlinear_arith);
    }
    lemma_sum_eq(d + 1, c, fab);
    lemma_sum_scale(d + 1, f, ab);
    lemma_sum_sub(d + 1, a, b);
    let s = sum_to(d + 1, a);
    let t = sum_to(d + 1, b);
    assert((f * (s - t)) * all == f * (s * all - t * all)) by (nonlinear_arith);
}

} // verus!
