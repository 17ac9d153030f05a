//! What a sum of fractions that is zero shows: how often each value stands in it.
use vstd::prelude::*;
use crate::field::{
    cong, invertible, lemma_cong_cancel, lemma_cong_ops, lemma_invertible_mul, lemma_invertible_one,
    lemma_modulus, modulus,
};
use crate::interpolation::{
    far_apart, law_roots, lemma_padd, lemma_peval_zero, lemma_pmul, lemma_pscale, padd, peval, pmul,
    pscale,
};
use crate::soundness::{Fractions, all_zero, defects, entry_products};
use crate::sparse::total;
use crate::sums::sum_to;

verus! {

/// A fraction: a weight over a value that is shifted by a challenge, and the inverse of the
/// shifted value.
pub ghost struct Share {
    pub weight: int,
    pub value: int,
    pub inverse: int,
}

/// The inverses are those of the values, shifted by `x`.
pub open spec fn inverted(a: Seq<Share>, x: int) -> bool {
    forall|i: int| 0 <= i < a.len() ==> cong((x + (#[trigger] a[i]).value) * a[i].inverse, 1)
}

/// The sum of the fractions.
pub open spec fn shares_sum(a: Seq<Share>) -> int
    decreases a.len(),
{
    if a.len() == 0 {
        0
    } else {
        shares_sum(a.drop_last()) + a.last().weight * a.last().inverse
    }
}

/// The sum of the weights over a value.
pub open spec fn weight_of(a: Seq<Share>, v: int) -> int
    decreases a.len(),
{
    if a.len() == 0 {
        0
    } else if cong(a.last().value, v) {
        weight_of(a.drop_last(), v) + a.last().weight
    } else {
        weight_of(a.drop_last(), v)
    }
}

/// The product of the denominators over other values, as a polynomial in the challenge.
pub open spec fn rest_product(a: Seq<Share>, v: int) -> Seq<int>
    decreases a.len(),
{
    if a.len() == 0 {
        seq![1int]
    } else if cong(a.last().value, v) {
        rest_product(a.drop_last(), v)
    } else {
        pmul(rest_product(a.drop_last(), v), seq![a.last().value, 1])
    }
}

/// The sum of the fractions over other values, times the product of their denominators, as a
/// polynomial in the challenge.
pub open spec fn rest_sum(a: Seq<Share>, v: int) -> Seq<int>
    decreases a.len(),
{
    if a.len() == 0 {
        Seq::empty()
    } else if cong(a.last().value, v) {
        rest_sum(a.drop_last(), v)
    } else {
        padd(
            pmul(rest_sum(a.drop_last(), v), seq![a.last().value, 1]),
            pscale(a.last().weight, rest_product(a.drop_last(), v)),
        )
    }
}

/// The sum of all the fractions, times the denominator over a value and the product of the
/// denominators over other values, as a polynomial in the challenge.
pub open spec fn cleared(a: Seq<Share>, v: int) -> Seq<int> {
    padd(
        pscale(weight_of(a, v), rest_product(a, v)),
        pmul(rest_sum(a, v), seq![v, 1]),
    )
}

/// The weights over a value do not add up to zero, and the challenge is a zero of the
/// polynomial that tells it.
pub open spec fn hidden(a: Seq<Share>, v: int, x: int) -> bool {
    !cong(weight_of(a, v), 0) && cong(peval(cleared(a, v), x), 0)
}

/// The value of the polynomial, and how many coefficients it has.
proof fn lemma_cleared(a: Seq<Share>, v: int, x: int)
    ensures
        peval(cleared(a, v), x) == weight_of(a, v) * peval(rest_product(a, v), x) + peval(
            rest_sum(a, v),
            x,
        ) * (x + v),
        rest_product(a, v).len() <= a.len() + 1,
        rest_sum(a, v).len() <= a.len(),
        cleared(a, v).len() <= a.len() + 1,
    decreases a.len(),
{
    if a.len() > 0 {
        let b = a.drop_last();
        lemma_cleared(b, v, x);
        let f = seq![a.last().value, 1int];
        lemma_pmul(rest_product(b, v), f, x);
        lemma_pmul(rest_sum(b, v), f, x);
        lemma_pscale(a.last().weight, rest_product(b, v), x);
        lemma_padd(
            pmul(rest_sum(b, v), f),
            pscale(a.last().weight, rest_product(b, v)),
            x,
        );
    }
    lemma_linear(v, x);
    lemma_pscale(weight_of(a, v), rest_product(a, v), x);
    lemma_pmul(rest_sum(a, v), seq![v, 1], x);
    lemma_padd(
        pscale(weight_of(a, v), rest_product(a, v)),
        pmul(rest_sum(a, v), seq![v, 1]),
        x,
    );
}

proof fn lemma_linear(b: int, x: int)
    ensures
        peval(seq![b, 1], x) == x + b,
{
    let c = seq![b, 1int];
    let d = c.drop_first();
    assert(d =~= seq![1int]);
    assert(d.drop_first() =~= Seq::empty());
    assert(peval(d.drop_first(), x) == 0);
    assert(x * 0 == 0);
    assert(peval(d, x) == 1);
    assert(x * 1 == x);
}

/// The polynomial is what it is said to be.
proof fn lemma_cleared_sum(a: Seq<Share>, v: int, x: int)
    requires
        inverted(a, x),
    ensures
        cong(
            shares_sum(a) * (peval(rest_product(a, v), x) * (x + v)),
            weight_of(a, v) * peval(rest_product(a, v), x) + peval(rest_sum(a, v), x) * (x + v),
        ),
    decreases a.len(),
{
    let s = x + v;
    if a.len() == 0 {
        let o = peval(rest_product(a, v), x);
        assert(0 * (o * s) == 0);
        assert(0 * o + 0 * s == 0);
    } else {
        let b = a.drop_last();
        assert forall|i: int| 0 <= i < b.len() implies cong(
            (x + (#[trigger] b[i]).value) * b[i].inverse,
            1,
        ) by {
            assert(b[i] == a[i]);
        }
        lemma_cleared_sum(b, v, x);
        let l = a.last();
        let t = shares_sum(b);
        let o = peval(rest_product(b, v), x);
        let c = peval(rest_sum(b, v), x);
        let n = weight_of(b, v);
        let w = l.weight;
        let i = l.inverse;
        let y = x + l.value;
        assert(cong(y * i, 1)) by {
            assert(a[a.len() - 1] == l);
        }
        let left = t * (o * s);
        let right = n * o + c * s;
        if cong(l.value, v) {
            lemma_cong_ops(x, x, l.value, v);
            lemma_cong_ops(y, s, i, i);
            assert(cong(s * i, 1));
            lemma_cong_ops(w * o, w * o, s * i, 1);
            assert((t + w * i) * (o * s) == left + (w * o) * (s * i)) by (nonlinear_arith)
                requires
                    left == t * (o * s),
            ;
            lemma_cong_ops(left, right, (w * o) * (s * i), (w * o) * 1);
            assert((n + w) * o + c * s == right + (w * o) * 1) by (nonlinear_arith)
                requires
                    right == n * o + c * s,
            ;
        } else {
            let f = seq![l.value, 1int];
            lemma_linear(l.value, x);
            lemma_pmul(rest_product(b, v), f, x);
            lemma_pmul(rest_sum(b, v), f, x);
            lemma_pscale(w, rest_product(b, v), x);
            lemma_padd(pmul(rest_sum(b, v), f), pscale(w, rest_product(b, v)), x);
            let e = w * (o * s);
            lemma_cong_ops(left, right, y, y);
            lemma_cong_ops(e, e, y * i, 1);
            lemma_cong_ops(left * y, right * y, e * (y * i), e * 1);
            let m = (o * y) * s;
            assert((t + w * i) * m == t * m + (w * i) * m) by (nonlinear_arith);
            assert(t * ((o * y) * s) == (t * (o * s)) * y) by (nonlinear_arith);
            assert((w * i) * ((o * y) * s) == (w * (o * s)) * (y * i)) by (nonlinear_arith);
            assert(n * (o * y) + (c * y + w * o) * s == right * y + e * 1) by (nonlinear_arith)
                requires
                    right == n * o + c * s,
                    e == w * (o * s),
            ;
        }
    }
}

/// In a sum of fractions that is zero the weights over each value add up to zero, unless the
/// challenge is a zero of a polynomial that would not be zero.
pub proof fn law_weights(a: Seq<Share>, v: int, x: int)
    requires
        inverted(a, x),
        cong(shares_sum(a), 0),
    ensures
        cong(weight_of(a, v), 0) || hidden(a, v, x),
{
    lemma_cleared(a, v, x);
    lemma_cleared_sum(a, v, x);
    let p = peval(rest_product(a, v), x) * (x + v);
    lemma_cong_ops(shares_sum(a), 0, p, p);
    assert(0 * p == 0);
}

/// The values are the given one or differ from it by something invertible.
pub open spec fn set_apart(a: Seq<Share>, v: int) -> bool {
    forall|i: int|
        0 <= i < a.len() ==> cong((#[trigger] a[i]).value, v) || invertible(a[i].value - v)
}

proof fn lemma_rest_unit(a: Seq<Share>, v: int)
    requires
        set_apart(a, v),
    ensures
        invertible(peval(rest_product(a, v), -v)),
    decreases a.len(),
{
    if a.len() == 0 {
        lemma_invertible_one();
        let c = seq![1int];
        assert(c.drop_first() =~= Seq::empty());
        assert(peval(c.drop_first(), -v) == 0);
        assert((-v) * 0 == 0);
        assert(peval(c, -v) == 1);
    } else {
        let b = a.drop_last();
        let l = a.last();
        assert(a[a.len() - 1] == l);
        assert forall|i: int| 0 <= i < b.len() implies cong((#[trigger] b[i]).value, v)
            || invertible(b[i].value - v) by {
            assert(b[i] == a[i]);
        }
        lemma_rest_unit(b, v);
        if !cong(l.value, v) {
            lemma_linear(l.value, -v);
            lemma_pmul(rest_product(b, v), seq![l.value, 1], -v);
            lemma_invertible_mul(peval(rest_product(b, v), -v), l.value - v);
        }
    }
}

/// Weights that do not add up to zero are hidden by no more challenges than there are
/// fractions.
pub proof fn law_hidden_seldom(a: Seq<Share>, v: int, xs: Seq<int>)
    requires
        set_apart(a, v),
        far_apart(xs),
        forall|k: int| 0 <= k < xs.len() ==> hidden(a, v, #[trigger] xs[k]),
    ensures
        xs.len() <= a.len(),
{
    if xs.len() > a.len() {
        let c = cleared(a, v);
        lemma_cleared(a, v, -v);
        assert forall|k: int| 0 <= k < c.len() implies cong(peval(c, #[trigger] xs[k]), 0) by {
            assert(hidden(a, v, xs[k]));
        }
        law_roots(c, xs);
        lemma_peval_zero(c, -v);
        lemma_rest_unit(a, v);
        let w = weight_of(a, v);
        let o = peval(rest_product(a, v), -v);
        let r = peval(rest_sum(a, v), -v);
        assert(r * 0 == 0);
        assert(0 * o == 0);
        lemma_cong_cancel(w, 0, o);
        assert(hidden(a, v, xs[0]));
    }
}

/// The fractions with the opposite weights.
pub open spec fn opposite(a: Seq<Share>) -> Seq<Share> {
    a.map_values(|s: Share| Share { weight: -s.weight, ..s })
}

/// The sum of the first `n` fractions, one by one.
pub proof fn lemma_shares_sum(a: Seq<Share>, n: int)
    requires
        0 <= n <= a.len(),
    ensures
        shares_sum(a.take(n)) == sum_to(n, |i: int| a[i].weight * a[i].inverse),
    decreases n,
{
    if n > 0 {
        lemma_shares_sum(a, n - 1);
        assert(a.take(n).drop_last() =~= a.take(n - 1));
    }
}

/// The fractions of two lists.
pub proof fn lemma_shares_add(a: Seq<Share>, b: Seq<Share>, v: int, x: int)
    ensures
        shares_sum(a + b) == shares_sum(a) + shares_sum(b),
        weight_of(a + b, v) == weight_of(a, v) + weight_of(b, v),
        inverted(a, x) && inverted(b, x) ==> inverted(a + b, x),
    decreases b.len(),
{
    if b.len() == 0 {
        assert(a + b =~= a);
    } else {
        lemma_shares_add(a, b.drop_last(), v, x);
        assert((a + b).drop_last() =~= a + b.drop_last());
        assert((a + b).last() == b.last());
    }
}

/// The fractions with the opposite weights have the opposite sum.
pub proof fn lemma_opposite(a: Seq<Share>, v: int, x: int)
    ensures
        shares_sum(opposite(a)) == -shares_sum(a),
        weight_of(opposite(a), v) == -weight_of(a, v),
        inverted(a, x) ==> inverted(opposite(a), x),
    decreases a.len(),
{
    if a.len() > 0 {
        lemma_opposite(a.drop_last(), v, x);
        assert(opposite(a).drop_last() =~= opposite(a.drop_last()));
        let w = a.last().weight;
        let i = a.last().inverse;
        assert((-w) * i == -(w * i)) by (nonlinear_arith);
    }
    if inverted(a, x) {
        assert forall|i: int| 0 <= i < opposite(a).len() implies cong(
            (x + (#[trigger] opposite(a)[i]).value) * opposite(a)[i].inverse,
            1,
        ) by {
            assert(opposite(a)[i].value == a[i].value);
        }
    }
}

/// In two sums of fractions that are equal each value has the same weight, unless the
/// challenge hides it.
pub proof fn law_same_weights(a: Seq<Share>, b: Seq<Share>, v: int, x: int)
    requires
        inverted(a, x),
        inverted(b, x),
        cong(shares_sum(a), shares_sum(b)),
    ensures
        cong(weight_of(a, v), weight_of(b, v)) || hidden(a + opposite(b), v, x),
{
    let c = a + opposite(b);
    lemma_opposite(b, v, x);
    lemma_shares_add(a, opposite(b), v, x);
    let t = shares_sum(b);
    let w = weight_of(b, v);
    lemma_cong_ops(shares_sum(a), t, t, t);
    law_weights(c, v, x);
    if cong(weight_of(c, v), 0) {
        lemma_cong_ops(weight_of(c, v), 0, w, w);
    }
}

/// The fractions of the elements that are looked up, less those of the table, weighted by
/// the counts; the challenge is `x`.
pub open spec fn lookup_shares(w: Fractions, x: int) -> Seq<Share> {
    Seq::new(
        w.ele.len(),
        |i: int| Share { weight: 1, value: w.ele[i] - x, inverse: w.ele_inv[i] },
    ) + Seq::new(
        w.tab.len(),
        |j: int| Share { weight: -w.count[j], value: w.tab[j] - x, inverse: w.tab_inv[j] },
    )
}

/// An element is an entry of the table.
pub open spec fn in_table(w: Fractions, e: int) -> bool {
    exists|j: int| 0 <= j < w.tab.len() && cong(#[trigger] w.tab[j], e)
}

/// The sum of the first fractions, element by element.
proof fn lemma_lookup_sum(w: Fractions, x: int, n: int)
    requires
        w.ele_inv.len() == w.ele.len(),
        w.tab_inv.len() == w.tab.len(),
        w.count.len() == w.tab.len(),
        0 <= n <= w.ele.len() + w.tab.len(),
    ensures
        n <= w.ele.len() ==> shares_sum(lookup_shares(w, x).take(n)) == sum_to(
            n,
            |i: int| w.ele_inv[i],
        ),
        n >= w.ele.len() ==> shares_sum(lookup_shares(w, x).take(n)) == total(w.ele_inv) - sum_to(
            n - w.ele.len(),
            |j: int| entry_products(w.tab_inv, w.count)[j],
        ),
    decreases n,
{
    let a = lookup_shares(w, x);
    if n > 0 {
        lemma_lookup_sum(w, x, n - 1);
        assert(a.take(n).drop_last() =~= a.take(n - 1));
        assert(a.take(n).last() == a[n - 1]);
        if n > w.ele.len() {
            let j = n - 1 - w.ele.len();
            let c = w.count[j];
            let i = w.tab_inv[j];
            assert((-c) * i == -(i * c)) by (nonlinear_arith);
        }
    }
}

/// How often an element that is no entry of the table is looked up.
proof fn lemma_lookup_weight(w: Fractions, x: int, e: int, n: int)
    requires
        !in_table(w, e),
        0 <= n <= w.ele.len() + w.tab.len(),
    ensures
        0 <= weight_of(lookup_shares(w, x).take(n), e - x) <= w.ele.len(),
        n <= w.ele.len() ==> weight_of(lookup_shares(w, x).take(n), e - x) <= n,
        forall|i: int|
            0 <= i < n && i < w.ele.len() && cong(#[trigger] w.ele[i], e) ==> weight_of(
                lookup_shares(w, x).take(n),
                e - x,
            ) >= 1,
    decreases n,
{
    let a = lookup_shares(w, x);
    if n > 0 {
        lemma_lookup_weight(w, x, e, n - 1);
        assert(a.take(n).drop_last() =~= a.take(n - 1));
        let l = a[n - 1];
        assert(a.take(n).last() == l);
        if cong(l.value, e - x) {
            lemma_cong_ops(l.value, e - x, x, x);
        }
        if n <= w.ele.len() {
            if cong(w.ele[n - 1], e) {
                lemma_cong_ops(w.ele[n - 1], e, x, x);
            }
        } else {
            assert(l.value == w.tab[n - 1 - w.ele.len()] - x);
        }
    }
}

/// Elements whose inverses add up to those of a table, weighted by counts, are entries of
/// the table, unless the challenge that they are shifted by hides one that is not.
pub proof fn law_members(w: Fractions, x: int)
    requires
        w.ele_inv.len() == w.ele.len(),
        w.tab_inv.len() == w.tab.len(),
        w.count.len() == w.tab.len(),
        w.ele.len() < modulus(),
        all_zero(defects(w.ele, w.ele_inv)),
        all_zero(defects(w.tab, w.tab_inv)),
        cong(total(w.ele_inv), total(entry_products(w.tab_inv, w.count))),
    ensures
        forall|i: int|
            0 <= i < w.ele.len() ==> in_table(w, #[trigger] w.ele[i]) || hidden(
                lookup_shares(w, x),
                w.ele[i] - x,
                x,
            ),
{
    let a = lookup_shares(w, x);
    let n = a.len() as int;
    let s = total(w.ele_inv);
    let t = total(entry_products(w.tab_inv, w.count));
    assert(a.take(n) =~= a);
    lemma_lookup_sum(w, x, n);
    assert(shares_sum(a) == s - t);
    lemma_cong_ops(s, t, t, t);
    assert forall|i: int| 0 <= i < a.len() implies cong(
        (x + (#[trigger] a[i]).value) * a[i].inverse,
        1,
    ) by {
        if i < w.ele.len() {
            assert(cong(defects(w.ele, w.ele_inv)[i], 0));
            lemma_cong_ops(w.ele[i] * w.ele_inv[i] - 1, 0, 1, 1);
        } else {
            let j = i - w.ele.len();
            assert(cong(defects(w.tab, w.tab_inv)[j], 0));
            lemma_cong_ops(w.tab[j] * w.tab_inv[j] - 1, 0, 1, 1);
        }
    }
    assert forall|i: int| 0 <= i < w.ele.len() && !in_table(w, #[trigger] w.ele[i]) implies hidden(
        a,
        w.ele[i] - x,
        x,
    ) by {
        let e = w.ele[i];
        law_weights(a, e - x, x);
        lemma_lookup_weight(w, x, e, n);
        lemma_modulus();
        let k = weight_of(a, e - x);
        assert(1 <= k < modulus());
        assert(k % modulus() == k) by (nonlinear_arith)
            requires
                0 <= k < modulus(),
        ;
        assert(0int % modulus() == 0) by (nonlinear_arith)
            requires
                modulus() > 0,
        ;
    }
}

} // verus!
