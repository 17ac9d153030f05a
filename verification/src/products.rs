//! Matrix products and convolutions as products of polynomials in one variable.
use vstd::prelude::*;
use vstd::arithmetic::div_mod::lemma_fundamental_div_mod_converse;
use vstd::arithmetic::power::*;
use crate::openings::lemma_sum_blocks;
use crate::program::{
    conv_cell, conv_term, kernel_pow, kernel_value, left_value, mat_entry, mat_term, plane_value,
    right_value,
};
use crate::sums::{
    lemma_sum_eq, lemma_sum_extend, lemma_sum_scale, lemma_sum_split, lemma_sum_swap,
    lemma_sum_zero, sum_to,
};

verus! {

/// The coordinates of a place in a grid.
proof fn lemma_grid(c: int, n: int, j: int)
    requires
        0 <= j < n,
    ensures
        (c * n + j) / n == c,
        (c * n + j) % n == j,
{
    lemma_fundamental_div_mod_converse(c * n + j, n, c, j);
}

/// A sum over a grid, by its coordinates.
proof fn lemma_grid_sum(m: int, n: int, f: spec_fn(int, int) -> int)
    requires
        0 <= m,
        0 < n,
    ensures
        sum_to(m * n, |t: int| f(t / n, t % n)) == sum_to(
            m,
            |c: int| sum_to(n, |j: int| f(c, j)),
        ),
{
    let g = |t: int| f(t / n, t % n);
    lemma_sum_blocks(m, n, g);
    let a = |c: int| sum_to(n, |j: int| g(c * n + j));
    let b = |c: int| sum_to(n, |j: int| f(c, j));
    assert forall|c: int| 0 <= c < m implies #[trigger] a(c) == b(c) by {
        let x = |j: int| g(c * n + j);
        let y = |j: int| f(c, j);
        assert forall|j: int| 0 <= j < n implies #[trigger] x(j) == y(j) by {
            lemma_grid(c, n, j);
        }
        lemma_sum_eq(n, x, y);
    }
    lemma_sum_eq(m, a, b);
}

/// The product of two sums.
proof fn lemma_sum_product(m: int, n: int, f: spec_fn(int) -> int, g: spec_fn(int) -> int)
    ensures
        sum_to(m, f) * sum_to(n, g) == sum_to(m, |a: int| sum_to(n, |b: int| f(a) * g(b))),
{
    let s = sum_to(n, g);
    let x = |a: int| sum_to(n, |b: int| f(a) * g(b));
    let y = |a: int| s * f(a);
    assert forall|a: int| 0 <= a < m implies #[trigger] x(a) == y(a) by {
        lemma_sum_scale(n, f(a), g);
        let u = f(a);
        assert(u * s == s * u) by (nonlinear_arith);
    }
    lemma_sum_eq(m, x, y);
    lemma_sum_scale(m, s, f);
    let u = sum_to(m, f);
    assert(s * u == u * s) by (nonlinear_arith);
}

/// The outermost of three sums becomes the innermost.
proof fn lemma_sum_rotate(n: int, m: int, k: int, f: spec_fn(int, int, int) -> int)
    ensures
        sum_to(n, |l: int| sum_to(m, |a: int| sum_to(k, |b: int| f(l, a, b)))) == sum_to(
            m,
            |a: int| sum_to(k, |b: int| sum_to(n, |l: int| f(l, a, b))),
        ),
{
    let g = |l: int, a: int| sum_to(k, |b: int| f(l, a, b));
    let x0 = |l: int| sum_to(m, |a: int| sum_to(k, |b: int| f(l, a, b)));
    let x1 = |l: int| sum_to(m, |a: int| g(l, a));
    assert forall|l: int| 0 <= l < n implies #[trigger] x0(l) == x1(l) by {
        lemma_sum_eq(m, |a: int| sum_to(k, |b: int| f(l, a, b)), |a: int| g(l, a));
    }
    lemma_sum_eq(n, x0, x1);
    lemma_sum_swap(n, m, g);
    let y0 = |a: int| sum_to(n, |l: int| g(l, a));
    let y1 = |a: int| sum_to(k, |b: int| sum_to(n, |l: int| f(l, a, b)));
    assert forall|a: int| 0 <= a < m implies #[trigger] y0(a) == y1(a) by {
        let h = |l: int, b: int| f(l, a, b);
        lemma_sum_swap(n, k, h);
        let z0 = |l: int| g(l, a);
        let z1 = |l: int| sum_to(k, |b: int| h(l, b));
        assert forall|l: int| 0 <= l < n implies #[trigger] z0(l) == z1(l) by {
            lemma_sum_eq(k, |b: int| f(l, a, b), |b: int| h(l, b));
        }
        lemma_sum_eq(n, z0, z1);
        let w0 = |b: int| sum_to(n, |l: int| h(l, b));
        let w1 = |b: int| sum_to(n, |l: int| f(l, a, b));
        assert forall|b: int| 0 <= b < k implies #[trigger] w0(b) == w1(b) by {
            lemma_sum_eq(n, |l: int| h(l, b), |l: int| f(l, a, b));
        }
        lemma_sum_eq(k, w0, w1);
    }
    lemma_sum_eq(m, y0, y1);
}

/// The randomized rows and columns of two matrices multiply to their randomized product.
pub proof fn law_mat_product(z: Seq<int>, m: int, n: int, k: int, s1: int, s2: int, gamma: int)
    requires
        0 <= m,
        0 <= n,
        0 < k,
    ensures
        sum_to(
            n,
            |i: int| left_value(z, m, k, s1, i, gamma) * right_value(z, k, s2, i, gamma),
        ) == sum_to(
            m * k,
            |t: int| mat_entry(z, m, k, s1, s2, t / k, t % k, n) * pow(gamma, t as nat),
        ),
{
    let f = |l: int, a: int, b: int|
        mat_term(z, m, k, s1, s2, a, b, l) * pow(gamma, (a * k + b) as nat);
    let lhs = |i: int| left_value(z, m, k, s1, i, gamma) * right_value(z, k, s2, i, gamma);
    let l3 = |l: int| sum_to(m, |a: int| sum_to(k, |b: int| f(l, a, b)));
    assert forall|l: int| 0 <= l < n implies #[trigger] lhs(l) == l3(l) by {
        let x = |j: int| z[s1 + l * m + j] * pow(gamma, (j * k) as nat);
        let y = |j: int| z[s2 + l * k + j] * pow(gamma, j as nat);
        lemma_sum_product(m, k, x, y);
        let u = |a: int| sum_to(k, |b: int| x(a) * y(b));
        let v = |a: int| sum_to(k, |b: int| f(l, a, b));
        assert forall|a: int| 0 <= a < m implies #[trigger] u(a) == v(a) by {
            let p = |b: int| x(a) * y(b);
            let q = |b: int| f(l, a, b);
            assert forall|b: int| 0 <= b < k implies #[trigger] p(b) == q(b) by {
                assert(a * k >= 0) by (nonlinear_arith)
                    requires
                        a >= 0,
                        k > 0,
                ;
                lemma_pow_adds(gamma, (a * k) as nat, b as nat);
                assert((a * k) as nat + b as nat == (a * k + b) as nat);
                let c = z[s1 + l * m + a];
                let d = z[s2 + l * k + b];
                let g = pow(gamma, (a * k) as nat);
                let h = pow(gamma, b as nat);
                assert((c * g) * (d * h) == (c * d) * (g * h)) by (nonlinear_arith);
            }
            lemma_sum_eq(k, p, q);
        }
        lemma_sum_eq(m, u, v);
    }
    lemma_sum_eq(n, lhs, l3);
    lemma_sum_rotate(n, m, k, f);
    let r = |a: int, b: int| mat_entry(z, m, k, s1, s2, a, b, n) * pow(gamma, (a * k + b) as nat);
    let r0 = |a: int| sum_to(k, |b: int| sum_to(n, |l: int| f(l, a, b)));
    let r1 = |a: int| sum_to(k, |b: int| r(a, b));
    assert forall|a: int| 0 <= a < m implies #[trigger] r0(a) == r1(a) by {
        let p = |b: int| sum_to(n, |l: int| f(l, a, b));
        let q = |b: int| r(a, b);
        assert forall|b: int| 0 <= b < k implies #[trigger] p(b) == q(b) by {
            let g = pow(gamma, (a * k + b) as nat);
            let t = |l: int| mat_term(z, m, k, s1, s2, a, b, l);
            lemma_sum_scale(n, g, t);
            let x = |l: int| f(l, a, b);
            let y = |l: int| g * t(l);
            assert forall|l: int| 0 <= l < n implies #[trigger] x(l) == y(l) by {
                let w = t(l);
                assert(w * g == g * w) by (nonlinear_arith);
            }
            lemma_sum_eq(n, x, y);
            let s = sum_to(n, t);
            assert(s * g == g * s) by (nonlinear_arith);
        }
        lemma_sum_eq(k, p, q);
    }
    lemma_sum_eq(m, r0, r1);
    lemma_grid_sum(m, k, r);
    let e0 = |t: int| r(t / k, t % k);
    let e1 = |t: int| mat_entry(z, m, k, s1, s2, t / k, t % k, n) * pow(gamma, t as nat);
    assert forall|t: int| 0 <= t < m * k implies #[trigger] e0(t) == e1(t) by {
        vstd::arithmetic::div_mod::lemma_fundamental_div_mod(t, k);
        assert(k * (t / k) == (t / k) * k) by (nonlinear_arith);
    }
    lemma_sum_eq(m * k, e0, e1);
}

/// A sum over a window is the sum over what is in it.
proof fn lemma_window(side: int, n: int, c: int, f: spec_fn(int) -> int, g: spec_fn(int) -> int)
    requires
        0 <= c,
        0 <= n,
        c + n <= side,
        forall|a: int| 0 <= a < side ==> #[trigger] g(a) == if 0 <= a - c < n {
            f(a - c)
        } else {
            0
        },
    ensures
        sum_to(side, g) == sum_to(n, f),
{
    lemma_sum_zero(c, g);
    lemma_sum_split(c, n, g);
    lemma_sum_extend(c + n, side, g);
    let h = |i: int| g(c + i);
    assert forall|i: int| 0 <= i < n implies #[trigger] h(i) == f(i) by {
        assert(g(c + i) == f((c + i) - c));
    }
    lemma_sum_eq(n, h, f);
}

/// What stands at a place of a plane, zero outside of it.
spec fn in_plane(n: int, i: int, j: int, x: int) -> int {
    if 0 <= i < n && 0 <= j < n {
        x
    } else {
        0
    }
}

/// A sum over a square window in a square is the sum over what is in it.
proof fn lemma_square_window(
    side: int,
    n: int,
    c: int,
    d: int,
    f: spec_fn(int, int) -> int,
)
    requires
        0 <= c,
        0 <= d,
        0 < n,
        c + n <= side,
        d + n <= side,
    ensures
        sum_to(
            side * side,
            |s: int| in_plane(n, s / side - c, s % side - d, f(s / side - c, s % side - d)),
        ) == sum_to(n * n, |p: int| f(p / n, p % n)),
{
    let g = |a: int, b: int| in_plane(n, a - c, b - d, f(a - c, b - d));
    lemma_grid_sum(side, side, g);
    lemma_sum_eq(
        side * side,
        |s: int| in_plane(n, s / side - c, s % side - d, f(s / side - c, s % side - d)),
        |t: int| g(t / side, t % side),
    );
    lemma_grid_sum(n, n, f);
    let row = |i: int| sum_to(n, |j: int| f(i, j));
    let big = |a: int| sum_to(side, |b: int| g(a, b));
    assert forall|a: int| 0 <= a < side implies #[trigger] big(a) == if 0 <= a - c < n {
        row(a - c)
    } else {
        0
    } by {
        let h = |b: int| g(a, b);
        if 0 <= a - c < n {
            let e = |j: int| f(a - c, j);
            assert forall|b: int| 0 <= b < side implies #[trigger] h(b) == if 0 <= b - d < n {
                e(b - d)
            } else {
                0
            } by {}
            lemma_window(side, n, d, e, h);
        } else {
            lemma_sum_zero(side, h);
        }
    }
    lemma_window(side, n, c, row, big);
}

/// The place in a kernel does not depend on the kernel.
proof fn lemma_kernel_place(q: int, m: int, x: int)
    requires
        0 < m,
        0 <= x < m * m,
    ensures
        (q * (m * m) + x) / (m * m) == q,
        (q * (m * m) + x) % (m * m) == x,
        ((q * (m * m) + x) / m) % m == x / m,
        (q * (m * m) + x) % m == x % m,
        0 <= x / m < m,
        0 <= x % m < m,
{
    lemma_fundamental_div_mod_converse(q * (m * m) + x, m * m, q, x);
    let u = x / m;
    let v = x % m;
    vstd::arithmetic::div_mod::lemma_fundamental_div_mod(x, m);
    assert(0 <= u < m) by (nonlinear_arith)
        requires
            x == m * u + v,
            0 <= v < m,
            0 <= x < m * m,
            0 < m,
    ;
    assert(q * (m * m) + x == (q * m + u) * m + v) by (nonlinear_arith)
        requires
            x == m * u + v,
    ;
    lemma_fundamental_div_mod_converse(q * (m * m) + x, m, q * m + u, v);
    lemma_fundamental_div_mod_converse(q * m + u, m, q, u);
}

/// What one entry of a kernel adds to the randomized planes of an output channel.
spec fn kernel_part(
    z: Seq<int>,
    n: int,
    m: int,
    outs: int,
    side: int,
    s1: int,
    s2: int,
    o: int,
    t: int,
    gamma: int,
) -> int {
    let ch = t / (m * m);
    let u = (t / m) % m;
    let v = t % m;
    let e = o * (side * side) + (m - 1 - u) * side + (m - 1 - v);
    z[s2 + (ch * outs + o) * (m * m) + u * m + v] * pow(gamma, e as nat) * plane_value(
        z,
        n,
        side,
        s1,
        ch,
        gamma,
    )
}

/// One entry of a kernel, summed over the cells of an output plane.
#[verifier::rlimit(30)]
proof fn lemma_kernel_part(
    z: Seq<int>,
    n: int,
    m: int,
    outs: int,
    s1: int,
    s2: int,
    o: int,
    t: int,
    gamma: int,
)
    requires
        0 < n,
        0 < m,
        0 <= o,
        0 <= t,
    ensures
        ({
            let side = n + m - 1;
            sum_to(
                side * side,
                |s: int|
                    conv_term(z, n, m, outs, s1, s2, o, s / side, s % side, t) * pow(
                        gamma,
                        (o * (side * side) + s) as nat,
                    ),
            ) == kernel_part(z, n, m, outs, side, s1, s2, o, t, gamma)
        }),
{
    let side = n + m - 1;
    let ch = t / (m * m);
    let u = (t / m) % m;
    let v = t % m;
    let c = m - 1 - u;
    let d = m - 1 - v;
    let base = o * (side * side);
    let e = base + c * side + d;
    let w = z[s2 + (ch * outs + o) * (m * m) + u * m + v];
    assert(base >= 0) by (nonlinear_arith)
        requires
            base == o * (side * side),
            o >= 0,
    ;
    assert(c * side >= 0) by (nonlinear_arith)
        requires
            c >= 0,
            side >= 0,
    ;
    let x = |i: int, j: int| z[s1 + ch * (n * n) + i * n + j];
    let f = |i: int, j: int| (w * pow(gamma, e as nat)) * (x(i, j) * pow(
        gamma,
        (i * side + j) as nat,
    ));
    lemma_square_window(side, n, c, d, f);
    let a = |s: int|
        conv_term(z, n, m, outs, s1, s2, o, s / side, s % side, t) * pow(gamma, (base + s) as nat);
    let b = |s: int| in_plane(n, s / side - c, s % side - d, f(s / side - c, s % side - d));
    assert forall|s: int| 0 <= s < side * side implies #[trigger] a(s) == b(s) by {
        let alpha = s / side;
        let beta = s % side;
        let i = alpha - c;
        let j = beta - d;
        vstd::arithmetic::div_mod::lemma_fundamental_div_mod(s, side);
        assert(i == alpha - (m - 1) + u && j == beta - (m - 1) + v);
        let g = pow(gamma, (base + s) as nat);
        if 0 <= i < n && 0 <= j < n {
            assert(i * side >= 0) by (nonlinear_arith)
                requires
                    i >= 0,
                    side >= 0,
            ;
            assert(base + s == e + (i * side + j)) by (nonlinear_arith)
                requires
                    s == side * alpha + beta,
                    e == base + c * side + d,
                    alpha == i + c,
                    beta == j + d,
            ;
            lemma_pow_adds(gamma, e as nat, (i * side + j) as nat);
            assert(e as nat + (i * side + j) as nat == (base + s) as nat);
            let p = pow(gamma, e as nat);
            let q = pow(gamma, (i * side + j) as nat);
            let y = x(i, j);
            assert((y * w) * (p * q) == (w * p) * (y * q)) by (nonlinear_arith);
        } else {
            assert(0 * g == 0);
        }
    }
    lemma_sum_eq(side * side, a, b);
    let k = w * pow(gamma, e as nat);
    let y = |p: int| z[s1 + ch * (n * n) + p] * pow(gamma, ((p / n) * side + p % n) as nat);
    lemma_sum_scale(n * n, k, y);
    let l = |p: int| f(p / n, p % n);
    let r = |p: int| k * y(p);
    assert forall|p: int| 0 <= p < n * n implies #[trigger] l(p) == r(p) by {
        vstd::arithmetic::div_mod::lemma_fundamental_div_mod(p, n);
        assert((p / n) * n == n * (p / n)) by (nonlinear_arith);
    }
    lemma_sum_eq(n * n, l, r);
}

/// The randomized planes and kernels multiply to the randomized convolution.
#[verifier::rlimit(40)]
pub proof fn law_convolution(
    z: Seq<int>,
    n: int,
    m: int,
    ins: int,
    outs: int,
    s1: int,
    s2: int,
    gamma: int,
)
    requires
        0 < n,
        0 < m,
        0 <= ins,
        0 <= outs,
    ensures
        ({
            let side = n + m - 1;
            let plane = side * side;
            sum_to(
                ins,
                |ch: int|
                    plane_value(z, n, side, s1, ch, gamma) * kernel_value(
                        z,
                        m,
                        outs,
                        side,
                        s2,
                        ch,
                        gamma,
                    ),
            ) == sum_to(
                outs * plane,
                |t: int|
                    conv_cell(
                        z,
                        n,
                        m,
                        outs,
                        s1,
                        s2,
                        t / plane,
                        (t / side) % side,
                        t % side,
                        ins * (m * m),
                    ) * pow(gamma, t as nat),
            )
        }),
{
    let side = n + m - 1;
    let plane = side * side;
    let mm = m * m;
    let count = ins * mm;
    assert(mm > 0) by (nonlinear_arith)
        requires
            m > 0,
            mm == m * m,
    ;
    assert(plane > 0) by (nonlinear_arith)
        requires
            side > 0,
            plane == side * side,
    ;
    // the cells of each output channel
    let cell = |o: int, s: int|
        conv_cell(z, n, m, outs, s1, s2, o, s / side, s % side, count) * pow(
            gamma,
            (o * plane + s) as nat,
        );
    let flat = |t: int|
        conv_cell(z, n, m, outs, s1, s2, t / plane, (t / side) % side, t % side, count) * pow(
            gamma,
            t as nat,
        );
    let grid = |t: int| cell(t / plane, t % plane);
    assert forall|t: int| 0 <= t < outs * plane implies #[trigger] flat(t) == grid(t) by {
        vstd::arithmetic::div_mod::lemma_fundamental_div_mod(t, plane);
        let o = t / plane;
        let s = t % plane;
        assert(o * plane == plane * o) by (nonlinear_arith);
        lemma_kernel_place(o, side, s);
    }
    lemma_sum_eq(outs * plane, flat, grid);
    lemma_grid_sum(outs, plane, cell);
    // by output channel and entry of the kernels
    let part = |o: int, t: int| kernel_part(z, n, m, outs, side, s1, s2, o, t, gamma);
    let c0 = |o: int| sum_to(plane, |s: int| cell(o, s));
    let c1 = |o: int| sum_to(count, |t: int| part(o, t));
    assert forall|o: int| 0 <= o < outs implies #[trigger] c0(o) == c1(o) by {
        let term = |s: int, t: int|
            conv_term(z, n, m, outs, s1, s2, o, s / side, s % side, t) * pow(
                gamma,
                (o * plane + s) as nat,
            );
        let x = |s: int| cell(o, s);
        let y = |s: int| sum_to(count, |t: int| term(s, t));
        assert forall|s: int| 0 <= s < plane implies #[trigger] x(s) == y(s) by {
            let g = pow(gamma, (o * plane + s) as nat);
            let f = |t: int| conv_term(z, n, m, outs, s1, s2, o, s / side, s % side, t);
            lemma_sum_scale(count, g, f);
            let p = |t: int| g * f(t);
            let q = |t: int| term(s, t);
            assert forall|t: int| 0 <= t < count implies #[trigger] p(t) == q(t) by {
                let w = f(t);
                assert(w * g == g * w) by (nonlinear_arith);
            }
            lemma_sum_eq(count, p, q);
            let w = sum_to(count, f);
            assert(w * g == g * w) by (nonlinear_arith);
        }
        lemma_sum_eq(plane, x, y);
        lemma_sum_swap(plane, count, term);
        let u = |t: int| sum_to(plane, |s: int| term(s, t));
        let v = |t: int| part(o, t);
        assert forall|t: int| 0 <= t < count implies #[trigger] u(t) == v(t) by {
            lemma_kernel_part(z, n, m, outs, s1, s2, o, t, gamma);
            lemma_sum_eq(
                plane,
                |s: int| term(s, t),
                |s: int|
                    conv_term(z, n, m, outs, s1, s2, o, s / side, s % side, t) * pow(
                        gamma,
                        (o * (side * side) + s) as nat,
                    ),
            );
        }
        lemma_sum_eq(count, u, v);
    }
    lemma_sum_eq(outs, c0, c1);
    // by input channel
    let three = |o: int, ch: int, x: int| part(o, ch * mm + x);
    let d0 = |o: int| sum_to(count, |t: int| part(o, t));
    let d1 = |o: int| sum_to(ins, |ch: int| sum_to(mm, |x: int| three(o, ch, x)));
    assert forall|o: int| 0 <= o < outs implies #[trigger] d0(o) == d1(o) by {
        let f = |t: int| part(o, t);
        lemma_sum_blocks(ins, mm, f);
        let p = |ch: int| sum_to(mm, |j: int| f(ch * mm + j));
        let q = |ch: int| sum_to(mm, |x: int| three(o, ch, x));
        assert forall|ch: int| 0 <= ch < ins implies #[trigger] p(ch) == q(ch) by {
            lemma_sum_eq(mm, |j: int| f(ch * mm + j), |x: int| three(o, ch, x));
        }
        lemma_sum_eq(ins, p, q);
    }
    lemma_sum_eq(outs, d0, d1);
    lemma_sum_rotate(outs, ins, mm, three);
    let l = |ch: int|
        plane_value(z, n, side, s1, ch, gamma) * kernel_value(z, m, outs, side, s2, ch, gamma);
    let r = |ch: int| sum_to(mm, |x: int| sum_to(outs, |o: int| three(o, ch, x)));
    assert forall|ch: int| 0 <= ch < ins implies #[trigger] l(ch) == r(ch) by {
        lemma_channel(z, n, m, outs, s1, s2, ch, gamma);
        let g = |x: int, o: int| three(o, ch, x);
        lemma_sum_swap(mm, outs, g);
        let e0 = |x: int| sum_to(outs, |o: int| three(o, ch, x));
        let e1 = |x: int| sum_to(outs, |o: int| g(x, o));
        assert forall|x: int| 0 <= x < mm implies #[trigger] e0(x) == e1(x) by {
            lemma_sum_eq(outs, |o: int| three(o, ch, x), |o: int| g(x, o));
        }
        lemma_sum_eq(mm, e0, e1);
        let h0 = |o: int| sum_to(mm, |x: int| g(x, o));
        let h1 = |o: int|
            sum_to(
                mm,
                |x: int| kernel_part(z, n, m, outs, side, s1, s2, o, ch * mm + x, gamma),
            );
        assert forall|o: int| 0 <= o < outs implies #[trigger] h0(o) == h1(o) by {
            lemma_sum_eq(
                mm,
                |x: int| g(x, o),
                |x: int| kernel_part(z, n, m, outs, side, s1, s2, o, ch * mm + x, gamma),
            );
        }
        lemma_sum_eq(outs, h0, h1);
    }
    lemma_sum_eq(ins, l, r);
}

/// The kernels of one input channel, entry by entry.
#[verifier::rlimit(30)]
proof fn lemma_channel(
    z: Seq<int>,
    n: int,
    m: int,
    outs: int,
    s1: int,
    s2: int,
    ch: int,
    gamma: int,
)
    requires
        0 < n,
        0 < m,
        0 <= outs,
        0 <= ch,
    ensures
        ({
            let side = n + m - 1;
            let mm = m * m;
            plane_value(z, n, side, s1, ch, gamma) * kernel_value(
                z,
                m,
                outs,
                side,
                s2,
                ch,
                gamma,
            ) == sum_to(
                outs,
                |o: int|
                    sum_to(
                        mm,
                        |x: int| kernel_part(z, n, m, outs, side, s1, s2, o, ch * mm + x, gamma),
                    ),
            )
        }),
{
    let side = n + m - 1;
    let mm = m * m;
    let p = plane_value(z, n, side, s1, ch, gamma);
    assert(mm > 0) by (nonlinear_arith)
        requires
            m > 0,
            mm == m * m,
    ;
    let f = |t: int|
        z[s2 + ch * (outs * mm) + t] * pow(gamma, kernel_pow(m, side, t) as nat);
    lemma_sum_scale(outs * mm, p, f);
    let pf = |t: int| p * f(t);
    lemma_sum_eq(
        outs * mm,
        f,
        |t: int| z[s2 + ch * (outs * (m * m)) + t] * pow(gamma, kernel_pow(m, side, t) as nat),
    );
    lemma_sum_blocks(outs, mm, pf);
    let a = |o: int| sum_to(mm, |j: int| pf(o * mm + j));
    let b = |o: int|
        sum_to(mm, |x: int| kernel_part(z, n, m, outs, side, s1, s2, o, ch * mm + x, gamma));
    assert forall|o: int| 0 <= o < outs implies #[trigger] a(o) == b(o) by {
        let c = |j: int| pf(o * mm + j);
        let d = |x: int| kernel_part(z, n, m, outs, side, s1, s2, o, ch * mm + x, gamma);
        assert forall|x: int| 0 <= x < mm implies #[trigger] c(x) == d(x) by {
            lemma_kernel_place(o, m, x);
            lemma_kernel_place(ch, m, x);
            let u = x / m;
            let v = x % m;
            vstd::arithmetic::div_mod::lemma_fundamental_div_mod(x, m);
            assert(s2 + ch * (outs * mm) + (o * mm + x) == s2 + (ch * outs + o) * mm + u * m + v)
                by (nonlinear_arith)
                requires
                    x == m * u + v,
            ;
            let w = z[s2 + (ch * outs + o) * mm + u * m + v];
            let e = o * (side * side) + (m - 1 - u) * side + (m - 1 - v);
            let g = pow(gamma, e as nat);
            assert(kernel_pow(m, side, o * mm + x) == e);
            assert(c(x) == p * (w * g));
            assert(d(x) == w * g * p);
            assert(p * (w * g) == w * g * p) by (nonlinear_arith);
        }
        lemma_sum_eq(mm, c, d);
    }
    lemma_sum_eq(outs, a, b);
}

} // verus!
