//! What a wrong claim needs to pass a sumcheck.
use vstd::prelude::*;
use vstd::arithmetic::power2::*;
use crate::acceptance::{five_dots, five_values, lemma_joined_sums, lemma_nested};
use crate::channel::{
    State, challenge, challenges, read_f, read_fs, read_len, read_points, require,
};
use crate::circuit::{CircuitView, row_value};
use crate::field::{cong, invertible, lemma_cong_cancel, lemma_cong_ops};
use crate::gates::{
    constraint, lemma_gate_degrees, lemma_gate_values, logup_left, logup_right, product2,
};
use crate::interpolation::{law_extrapolate, peval, psum};
use crate::logup::lemma_vanishing;
use crate::poly::{
    at, eq_at, eq_prefix, fold, lemma_half_len, lemma_mle_constant, lemma_mle_fold, mle,
};
use crate::prover::{joined, rows_value};
use crate::refusal::lemma_rounds_ok;
use crate::replay::{
    lemma_round_fold, lemma_round_halves, lemma_round_poly, line_poly, row_at, vanishes, whole_sum,
};
use crate::shapes::lemma_mle_eq_take;
use crate::sparse::{eq_table, total};
use crate::sumcheck::{
    Gate, extrapolate, fold_tables, gate_degree, gate_fits, gate_value, lemma_log2_ceil, log2_ceil,
    off_nodes, round_message, same_len, values_at, verify_rounds,
};
use crate::sums::{lemma_pow2_step, lemma_sum_add, lemma_sum_eq, lemma_sum_scale, sum_to};
use crate::verify::{joined_values, read_rounds, verify_constraints, verify_linear, verify_lookups};

verus! {

/// Two messages of a round are the same field elements.
pub open spec fn same_message(u: Seq<int>, v: Seq<int>, d: int) -> bool {
    forall|i: int| 0 <= i <= d ==> cong(#[trigger] u[i], v[i])
}

/// In some round the verifier reads another message than the one for the tables, and draws
/// a challenge at which the two meet.
pub open spec fn met(
    y: int,
    nv: int,
    d: int,
    st: State,
    g: Gate,
    coins: Seq<int>,
    tabs: Seq<Seq<int>>,
    len: int,
) -> bool
    decreases nv,
{
    if nv <= 0 {
        false
    } else {
        let (st1, s) = read_fs(st, d + 1);
        let st2 = require(st1, cong(s[0] + s[1], y));
        let (st3, x) = challenge(st2);
        let st4 = require(st3, off_nodes(d, x));
        let right = round_message(g, coins, tabs, len, d);
        ||| !same_message(s, right, d) && cong(extrapolate(d, s, x), extrapolate(d, right, x))
        ||| met(
            extrapolate(d, s, x),
            nv - 1,
            d,
            st4,
            g,
            coins,
            fold_tables(tabs, x),
            (len + 1) / 2,
        )
    }
}

/// A sumcheck that is accepted, and leaves a right claim on the value of the expression at
/// the challenges, started with the right sum, unless in some round another message than
/// the right one was read and the challenge is one at which the two meet.
pub proof fn law_sound_rounds(
    g: Gate,
    coins: Seq<int>,
    tabs: Seq<Seq<int>>,
    len: int,
    d: int,
    nv: int,
    claim: int,
    st: State,
)
    requires
        gate_fits(g, tabs.len(), coins.len()),
        gate_degree(g) <= d,
        1 <= d <= u64::MAX,
        same_len(tabs, len),
        0 <= nv,
        0 < len <= pow2(nv as nat),
        len == pow2(nv as nat) || vanishes(g, coins, tabs.len()),
        ({
            let (p, y, end) = verify_rounds(claim, nv, d, st);
            end.ok && cong(y, gate_value(g, values_at(tabs, p), coins))
        }),
    ensures
        cong(claim, whole_sum(g, coins, tabs, len)) || met(
            claim,
            nv,
            d,
            st,
            g,
            coins,
            tabs,
            len,
        ),
    decreases nv,
{
    if nv == 0 {
        lemma_pow2_step(0);
        let p = Seq::<int>::empty();
        let w = |j: int| crate::replay::row_value(g, coins, tabs, j);
        reveal_with_fuel(sum_to, 2);
        assert(sum_to(1, w) == w(0));
        assert(row_at(tabs, 0) =~= values_at(tabs, p)) by {
            assert forall|t: int| 0 <= t < tabs.len() implies row_at(tabs, 0)[t] == values_at(
                tabs,
                p,
            )[t] by {
                assert(tabs[t].len() == 1);
                lemma_mle_constant(tabs[t]);
            }
        }
    } else {
        let (st1, s) = read_fs(st, d + 1);
        let st2 = require(st1, cong(s[0] + s[1], claim));
        let (st3, x) = challenge(st2);
        let st4 = require(st3, off_nodes(d, x));
        let next = if off_nodes(d, x) {
            extrapolate(d, s, x)
        } else {
            0
        };
        lemma_rounds_ok(next, nv - 1, d, st4);
        let (p, y, end) = verify_rounds(next, nv - 1, d, st4);
        let point = seq![x] + p;
        assert(verify_rounds(claim, nv, d, st) == (point, y, end));
        let m = (len + 1) / 2;
        let tabs1 = fold_tables(tabs, x);
        assert(values_at(tabs, point) =~= values_at(tabs1, p)) by {
            assert(point.drop_first() =~= p);
            assert forall|t: int| 0 <= t < tabs.len() implies values_at(tabs, point)[t]
                == values_at(tabs1, p)[t] by {
                lemma_mle_fold(tabs[t], point);
                assert(tabs1[t] == fold(tabs[t], x));
            }
        }
        lemma_half_len(len, (nv - 1) as nat);
        lemma_pow2_step((nv - 1) as nat);
        lemma_round_halves(g, coins, tabs, len);
        lemma_round_fold(g, coins, tabs, len, x);
        law_sound_rounds(g, coins, tabs1, m, d, nv - 1, next, st4);
        let right = round_message(g, coins, tabs, len, d);
        let c = psum(m, |j: int| line_poly(g, coins, tabs, j));
        assert forall|i: int| 0 <= i <= d implies #[trigger] right[i] == peval(c, i) by {
            lemma_round_poly(g, coins, tabs, len, d, i);
        }
        lemma_round_poly(g, coins, tabs, len, d, x);
        law_extrapolate(d, c, right, x);
        if same_message(s, right, d) {
            assert(cong(s[0], right[0]) && cong(s[1], right[1]));
            lemma_cong_ops(s[0], right[0], s[1], right[1]);
        }
    }
}

/// All the elements are zero.
pub open spec fn all_zero(v: Seq<int>) -> bool {
    forall|i: int| 0 <= i < v.len() ==> cong(#[trigger] v[i], 0)
}

/// Setting the variables to the coordinates one by one, some coordinate makes the values
/// vanish.
pub open spec fn vanished(v: Seq<int>, p: Seq<int>) -> bool
    decreases p.len(),
{
    if p.len() == 0 {
        false
    } else {
        ||| !all_zero(v) && all_zero(fold(v, p[0]))
        ||| vanished(fold(v, p[0]), p.drop_first())
    }
}

/// A multilinear polynomial whose values at the vertices are not all zero is zero at a
/// point only if some coordinate of the point makes its values vanish.
pub proof fn law_nonzero(v: Seq<int>, p: Seq<int>)
    requires
        v.len() <= pow2(p.len()),
        cong(mle(v, p), 0),
    ensures
        all_zero(v) || vanished(v, p),
    decreases p.len(),
{
    if v.len() > 0 {
        if p.len() == 0 {
            lemma_pow2_step(0);
            assert(p =~= Seq::<int>::empty());
            lemma_mle_constant(v);
        } else {
            lemma_mle_fold(v, p);
            lemma_half_len(v.len() as int, (p.len() - 1) as nat);
            law_nonzero(fold(v, p[0]), p.drop_first());
        }
    }
}

/// Only one coordinate makes values that are not all zero vanish.
pub proof fn law_vanish_once(v: Seq<int>, r: int, s: int)
    requires
        all_zero(fold(v, r)),
        all_zero(fold(v, s)),
        invertible(r - s),
    ensures
        all_zero(v),
{
    assert forall|j: int| 0 <= j < v.len() implies cong(#[trigger] v[j], 0) by {
        let i = j / 2;
        let a = at(v, 2 * i);
        let d = at(v, 2 * i + 1) - a;
        assert(cong(fold(v, r)[i], 0));
        assert(cong(fold(v, s)[i], 0));
        lemma_cong_ops(a + d * r, 0, a + d * s, 0);
        assert((a + d * r) - (a + d * s) == d * (r - s)) by (nonlinear_arith);
        assert(0 * (r - s) == 0);
        lemma_cong_cancel(d, 0, r - s);
        lemma_cong_ops(d, 0, r, r);
        assert(0 * r == 0);
        lemma_cong_ops(a + d * r, 0, d * r, 0);
        assert(a + d * r - d * r == a);
        lemma_cong_ops(a, 0, d, 0);
    }
}

/// What the constraints leave: the product of the first two rows less the third.
pub open spec fn residues_left(c: CircuitView, z: Seq<int>, gamma: int) -> Seq<int> {
    Seq::new(
        c.a.len(),
        |i: int|
            row_value(c.a[i], z, gamma) * row_value(c.b[i], z, gamma) - row_value(
                c.c[i],
                z,
                gamma,
            ),
    )
}

/// What the check of the constraints reads before its rounds: the number of constraints
/// and the challenges that weigh them; and the state then.
pub open spec fn constraints_start(st: State) -> (int, Seq<int>, State) {
    let (st1, witness) = read_points(st);
    let (st2, len) = read_len(st1, 2);
    let (st3, req) = challenges(st2, log2_ceil(len) as int);
    (len, req, st3)
}

/// The vectors that the sumcheck of the constraints is about.
pub open spec fn constraint_tables(
    c: CircuitView,
    z: Seq<int>,
    gamma: int,
    req: Seq<int>,
) -> Seq<Seq<int>> {
    seq![
        rows_value(c.a, z, gamma),
        rows_value(c.b, z, gamma),
        rows_value(c.c, z, gamma),
        eq_table(req).take(c.a.len() as int),
    ]
}

/// A check of the constraints that is accepted, and leaves right claims on the products of
/// the matrices with a vector, shows that the vector satisfies the constraints; unless in
/// some round messages that differ meet at the challenge, or a challenge that weighs the
/// constraints makes what they leave vanish.
pub proof fn law_sound_constraints(c: CircuitView, z: Seq<int>, gamma: int, st: State)
    requires
        2 <= c.a.len(),
        c.b.len() == c.a.len(),
        c.c.len() == c.a.len(),
        constraints_start(st).0 == c.a.len(),
        ({
            let (end, k) = verify_constraints(st);
            &&& end.ok
            &&& cong(k.products[0], mle(rows_value(c.a, z, gamma), k.point))
            &&& cong(k.products[1], mle(rows_value(c.b, z, gamma), k.point))
            &&& cong(k.products[2], mle(rows_value(c.c, z, gamma), k.point))
        }),
    ensures
        ({
            let (len, req, start) = constraints_start(st);
            ||| all_zero(residues_left(c, z, gamma))
            ||| vanished(residues_left(c, z, gamma), req)
            ||| met(
                0,
                log2_ceil(len) as int,
                3,
                start,
                constraint(),
                Seq::empty(),
                constraint_tables(c, z, gamma, req),
                len,
            )
        }),
{
    reveal(verify_constraints);
    let (len, req, start) = constraints_start(st);
    let n = c.a.len() as int;
    let nv = log2_ceil(n) as int;
    let (point, y, st4) = verify_rounds(0, nv, 3, start);
    let (st5, v) = read_fs(st4, 3);
    let tabs = constraint_tables(c, z, gamma, req);
    let none = Seq::<int>::empty();
    let g = constraint();
    lemma_log2_ceil(n);
    lemma_gate_degrees();
    reveal_with_fuel(gate_fits, 5);
    lemma_vanishing(none);
    assert(req.len() == nv);
    assert(same_len(tabs, n)) by {
        assert forall|t: int| 0 <= t < tabs.len() implies (#[trigger] tabs[t]).len() == n by {}
    }
    let x = values_at(tabs, point);
    lemma_gate_values(x, none);
    lemma_mle_eq_take(req, point, n);
    assert(x[0] == mle(tabs[0], point));
    assert(x[1] == mle(tabs[1], point));
    assert(x[2] == mle(tabs[2], point));
    assert(x[3] == mle(tabs[3], point));
    lemma_cong_ops(v[0], x[0], v[1], x[1]);
    lemma_cong_ops(v[0] * v[1], x[0] * x[1], v[2], x[2]);
    lemma_cong_ops(v[0] * v[1] - v[2], x[0] * x[1] - x[2], x[3], x[3]);
    law_sound_rounds(g, none, tabs, n, 3, nv, 0, start);
    let left = residues_left(c, z, gamma);
    let f = |j: int| crate::replay::row_value(g, none, tabs, j);
    let h = |j: int| left[j] * eq_at(req, j);
    assert forall|j: int| 0 <= j < n implies #[trigger] f(j) == h(j) by {
        let u = row_at(tabs, j);
        lemma_gate_values(u, none);
        assert(u[0] == at(tabs[0], j));
        assert(u[1] == at(tabs[1], j));
        assert(u[2] == at(tabs[2], j));
        assert(u[3] == at(tabs[3], j));
    }
    lemma_sum_eq(n, f, h);
    if cong(0, mle(left, req)) {
        law_nonzero(left, req);
    }
}

/// How far the entries of a vector are from being inverses of those of another.
pub open spec fn defects(x: Seq<int>, inv: Seq<int>) -> Seq<int> {
    Seq::new(x.len(), |i: int| x[i] * inv[i] - 1)
}

/// The products of the entries of two vectors.
pub open spec fn entry_products(x: Seq<int>, y: Seq<int>) -> Seq<int> {
    Seq::new(x.len(), |i: int| x[i] * y[i])
}

/// A coin makes a weighted defect and a wrong sum cancel.
pub open spec fn cancelled(defect: int, sum: int, claim: int, coin: int) -> bool {
    &&& cong(defect + coin * sum, claim * coin)
    &&& !(cong(defect, 0) && cong(sum, claim))
}

/// Only one coin makes a weighted defect and a wrong sum cancel.
pub proof fn law_cancel_once(defect: int, sum: int, claim: int, r: int, s: int)
    requires
        cong(defect + r * sum, claim * r),
        cong(defect + s * sum, claim * s),
        invertible(r - s),
    ensures
        cong(defect, 0),
        cong(sum, claim),
{
    lemma_cong_ops(defect + r * sum, claim * r, defect + s * sum, claim * s);
    assert((defect + r * sum) - (defect + s * sum) == sum * (r - s)) by (nonlinear_arith);
    assert(claim * r - claim * s == claim * (r - s)) by (nonlinear_arith);
    lemma_cong_cancel(sum, claim, r - s);
    lemma_cong_ops(r, r, sum, claim);
    assert(claim * r == r * claim) by (nonlinear_arith);
    lemma_cong_ops(defect + r * sum, claim * r, r * sum, r * claim);
    assert(defect + r * sum - r * sum == defect);
    assert(claim * r - r * claim == 0);
}

/// The inverses, weighted defects and the rest of a side of the lookups.
pub open spec fn side_shown(
    x: Seq<int>,
    inv: Seq<int>,
    weighed: Seq<int>,
    claim: int,
    req: Seq<int>,
    coin: int,
) -> bool {
    ||| all_zero(defects(x, inv)) && cong(total(weighed), claim)
    ||| vanished(defects(x, inv), req)
    ||| cancelled(mle(defects(x, inv), req), total(weighed), claim, coin)
}

pub proof fn lemma_side(
    x: Seq<int>,
    inv: Seq<int>,
    weighed: Seq<int>,
    claim: int,
    req: Seq<int>,
    coin: int,
    f: spec_fn(int) -> int,
)
    requires
        x.len() <= pow2(req.len()),
        weighed.len() == x.len(),
        forall|j: int|
            0 <= j < x.len() ==> #[trigger] f(j) == (x[j] * inv[j] - 1) * eq_at(req, j) + coin
                * weighed[j],
        cong(claim * coin, sum_to(x.len() as int, f)),
    ensures
        side_shown(x, inv, weighed, claim, req, coin),
{
    let n = x.len() as int;
    let left = defects(x, inv);
    let a = |j: int| left[j] * eq_at(req, j);
    let w = |j: int| weighed[j];
    let b = |j: int| coin * w(j);
    let ab = |j: int| a(j) + b(j);
    assert forall|j: int| 0 <= j < n implies #[trigger] f(j) == ab(j) by {}
    lemma_sum_eq(n, f, ab);
    lemma_sum_add(n, a, b);
    lemma_sum_scale(n, coin, w);
    assert(cong(mle(left, req) + coin * total(weighed), claim * coin));
    if cong(mle(left, req), 0) {
        law_nonzero(left, req);
    }
}

/// What the check of the lookups reads before its first rounds: the sum, the number of
/// lookups, the challenges that weigh them and the coin; and the state then.
pub open spec fn lookups_start(st: State) -> (int, int, Seq<int>, int, State) {
    let st2 = challenge(challenge(st).0).0;
    let st5 = read_points(read_points(read_points(st2).0).0).0;
    let (st6, sum) = read_f(st5);
    let (st7, len) = read_len(st6, 2);
    let (st8, req) = challenges(st7, log2_ceil(len) as int);
    let (st9, coin) = challenge(st8);
    (sum, len, req, coin, st9)
}

/// What the check of the lookups reads between its rounds: the number of rows of the table,
/// the challenges that weigh them and the coin; and the state then.
pub open spec fn lookups_middle(st: State) -> (int, Seq<int>, int, State) {
    let (sum, len, req, coin, st9) = lookups_start(st);
    let (left, y, st10) = verify_rounds(sum * coin, log2_ceil(len) as int, 3, st9);
    let (st11, e) = read_fs(st10, 2);
    let st12 = require(
        st11,
        cong(y, (e[0] * e[1] - 1) * eq_prefix(req, left, len) + coin * e[1]),
    );
    let (st13, vals) = read_fs(st12, 3);
    let (st14, len2) = read_len(st13, 2);
    let (st15, req2) = challenges(st14, log2_ceil(len2) as int);
    let (st16, coin2) = challenge(st15);
    (len2, req2, coin2, st16)
}

/// The elements that are looked up and the entries of the table, with what is said to be
/// their inverses, and how often each entry is said to be looked up.
pub ghost struct Fractions {
    pub ele: Seq<int>,
    pub ele_inv: Seq<int>,
    pub tab: Seq<int>,
    pub tab_inv: Seq<int>,
    pub count: Seq<int>,
}

impl Fractions {
    /// The vectors have the lengths that the check reads, and the claims that it leaves are
    /// on them.
    pub open spec fn claimed(self, st: State) -> bool {
        let k = verify_lookups(st).1;
        &&& self.ele.len() == lookups_start(st).1
        &&& self.ele_inv.len() == self.ele.len()
        &&& self.tab.len() == lookups_middle(st).0
        &&& self.tab_inv.len() == self.tab.len()
        &&& self.count.len() == self.tab.len()
        &&& cong(k.ele, mle(self.ele, k.left))
        &&& cong(k.ele_inv_value, mle(self.ele_inv, k.left))
        &&& cong(k.tab, mle(self.tab, k.right))
        &&& cong(k.tab_inv_value, mle(self.tab_inv, k.right))
        &&& cong(k.count_value, mle(self.count, k.right))
    }
}

proof fn lemma_left_side(w: Fractions, st: State)
    requires
        w.ele.len() >= 2,
        w.claimed(st),
        verify_lookups(st).0.ok,
    ensures
        ({
            let (sum, len, req, coin, start) = lookups_start(st);
            ||| side_shown(w.ele, w.ele_inv, w.ele_inv, sum, req, coin)
            ||| met(
                sum * coin,
                log2_ceil(len) as int,
                3,
                start,
                logup_left(),
                seq![coin],
                seq![w.ele, w.ele_inv, eq_table(req).take(len)],
                len,
            )
        }),
{
    reveal(verify_lookups);
    let (sum, len, req, coin, start) = lookups_start(st);
    let (len2, req2, coin2, start2) = lookups_middle(st);
    let n = w.ele.len() as int;
    let nv = log2_ceil(n) as int;
    let (point, y, st10) = verify_rounds(sum * coin, nv, 3, start);
    let (st11, e) = read_fs(st10, 2);
    let tabs = seq![w.ele, w.ele_inv, eq_table(req).take(n)];
    let coins = seq![coin];
    let g = logup_left();
    lemma_rounds_ok(lookups_start(st).0 * coin2, log2_ceil(len2) as int, 3, start2);
    lemma_log2_ceil(n);
    lemma_gate_degrees();
    reveal_with_fuel(gate_fits, 6);
    lemma_vanishing(coins);
    assert(req.len() == nv);
    assert(same_len(tabs, n)) by {
        assert forall|t: int| 0 <= t < tabs.len() implies (#[trigger] tabs[t]).len() == n by {}
    }
    let x = values_at(tabs, point);
    lemma_gate_values(x, coins);
    lemma_mle_eq_take(req, point, n);
    assert(x[0] == mle(tabs[0], point));
    assert(x[1] == mle(tabs[1], point));
    assert(x[2] == mle(tabs[2], point));
    lemma_cong_ops(e[0], x[0], e[1], x[1]);
    lemma_cong_ops(e[0] * e[1], x[0] * x[1], 1, 1);
    lemma_cong_ops(e[0] * e[1] - 1, x[0] * x[1] - 1, x[2], x[2]);
    lemma_cong_ops(coin, coin, e[1], x[1]);
    lemma_cong_ops(
        (e[0] * e[1] - 1) * x[2],
        (x[0] * x[1] - 1) * x[2],
        coin * e[1],
        coin * x[1],
    );
    law_sound_rounds(g, coins, tabs, n, 3, nv, sum * coin, start);
    let f = |j: int| crate::replay::row_value(g, coins, tabs, j);
    if cong(sum * coin, sum_to(n, f)) {
        assert forall|j: int| 0 <= j < n implies #[trigger] f(j) == (w.ele[j] * w.ele_inv[j] - 1)
            * eq_at(req, j) + coin * w.ele_inv[j] by {
            let u = row_at(tabs, j);
            lemma_gate_values(u, coins);
            assert(u[0] == at(tabs[0], j));
            assert(u[1] == at(tabs[1], j));
            assert(u[2] == at(tabs[2], j));
        }
        lemma_side(w.ele, w.ele_inv, w.ele_inv, sum, req, coin, f);
    }
}

proof fn lemma_right_side(w: Fractions, st: State)
    requires
        w.tab.len() >= 2,
        w.claimed(st),
        verify_lookups(st).0.ok,
    ensures
        ({
            let sum = lookups_start(st).0;
            let (len, req, coin, start) = lookups_middle(st);
            ||| side_shown(w.tab, w.tab_inv, entry_products(w.tab_inv, w.count), sum, req, coin)
            ||| met(
                sum * coin,
                log2_ceil(len) as int,
                3,
                start,
                logup_right(),
                seq![coin],
                seq![w.tab, w.tab_inv, w.count, eq_table(req).take(len)],
                len,
            )
        }),
{
    reveal(verify_lookups);
    let sum = lookups_start(st).0;
    let (len, req, coin, start) = lookups_middle(st);
    let n = w.tab.len() as int;
    let nv = log2_ceil(n) as int;
    let (point, y, st17) = verify_rounds(sum * coin, nv, 3, start);
    let (st18, t) = read_fs(st17, 3);
    let tabs = seq![w.tab, w.tab_inv, w.count, eq_table(req).take(n)];
    let coins = seq![coin];
    let g = logup_right();
    lemma_log2_ceil(n);
    lemma_gate_degrees();
    reveal_with_fuel(gate_fits, 6);
    lemma_vanishing(coins);
    assert(req.len() == nv);
    assert(same_len(tabs, n)) by {
        assert forall|i: int| 0 <= i < tabs.len() implies (#[trigger] tabs[i]).len() == n by {}
    }
    let x = values_at(tabs, point);
    lemma_gate_values(x, coins);
    lemma_mle_eq_take(req, point, n);
    assert(x[0] == mle(tabs[0], point));
    assert(x[1] == mle(tabs[1], point));
    assert(x[2] == mle(tabs[2], point));
    assert(x[3] == mle(tabs[3], point));
    lemma_cong_ops(t[0], x[0], t[1], x[1]);
    lemma_cong_ops(t[0] * t[1], x[0] * x[1], 1, 1);
    lemma_cong_ops(t[0] * t[1] - 1, x[0] * x[1] - 1, x[3], x[3]);
    lemma_cong_ops(coin, coin, t[1], x[1]);
    lemma_cong_ops(coin * t[1], coin * x[1], t[2], x[2]);
    lemma_cong_ops(
        (t[0] * t[1] - 1) * x[3],
        (x[0] * x[1] - 1) * x[3],
        coin * t[1] * t[2],
        coin * x[1] * x[2],
    );
    law_sound_rounds(g, coins, tabs, n, 3, nv, sum * coin, start);
    let f = |j: int| crate::replay::row_value(g, coins, tabs, j);
    let weighed = entry_products(w.tab_inv, w.count);
    if cong(sum * coin, sum_to(n, f)) {
        assert forall|j: int| 0 <= j < n implies #[trigger] f(j) == (w.tab[j] * w.tab_inv[j] - 1)
            * eq_at(req, j) + coin * weighed[j] by {
            let u = row_at(tabs, j);
            lemma_gate_values(u, coins);
            assert(u[0] == at(tabs[0], j));
            assert(u[1] == at(tabs[1], j));
            assert(u[2] == at(tabs[2], j));
            assert(u[3] == at(tabs[3], j));
            let a = w.tab_inv[j];
            let b = w.count[j];
            assert(coin * a * b == coin * (a * b)) by (nonlinear_arith);
        }
        lemma_side(w.tab, w.tab_inv, weighed, sum, req, coin, f);
    }
}

/// A check of the lookups that is accepted, and leaves right claims on vectors, shows that
/// the inverses are inverses and that those of the elements add up to those of the table,
/// weighted by the counts; unless in some round messages that differ meet at the
/// challenge, a challenge that weighs the defects makes them vanish, or a coin makes a
/// defect and a wrong sum cancel.
pub proof fn law_sound_lookups(w: Fractions, st: State)
    requires
        w.ele.len() >= 2,
        w.tab.len() >= 2,
        w.claimed(st),
        verify_lookups(st).0.ok,
    ensures
        ({
            let (sum, len, req, coin, start) = lookups_start(st);
            let (len2, req2, coin2, start2) = lookups_middle(st);
            let weighed = entry_products(w.tab_inv, w.count);
            ||| {
                &&& all_zero(defects(w.ele, w.ele_inv))
                &&& all_zero(defects(w.tab, w.tab_inv))
                &&& cong(total(w.ele_inv), total(weighed))
            }
            ||| vanished(defects(w.ele, w.ele_inv), req)
            ||| vanished(defects(w.tab, w.tab_inv), req2)
            ||| cancelled(mle(defects(w.ele, w.ele_inv), req), total(w.ele_inv), sum, coin)
            ||| cancelled(mle(defects(w.tab, w.tab_inv), req2), total(weighed), sum, coin2)
            ||| met(
                sum * coin,
                log2_ceil(len) as int,
                3,
                start,
                logup_left(),
                seq![coin],
                seq![w.ele, w.ele_inv, eq_table(req).take(len)],
                len,
            )
            ||| met(
                sum * coin2,
                log2_ceil(len2) as int,
                3,
                start2,
                logup_right(),
                seq![coin2],
                seq![w.tab, w.tab_inv, w.count, eq_table(req2).take(len2)],
                len2,
            )
        }),
{
    lemma_left_side(w, st);
    lemma_right_side(w, st);
}

/// What the check of a joined product reads before its rounds: the products, the challenge
/// that joins them and the number of rounds; and the state then.
pub open spec fn linear_start(st: State) -> (Seq<int>, int, int, State) {
    let (st1, sums) = read_fs(st, 5);
    let (st2, r) = challenge(st1);
    let (st3, nv) = read_rounds(st2);
    (sums, r, nv, st3)
}

/// The differences of two lists of five values.
pub open spec fn five_errors(u: Seq<int>, v: Seq<int>) -> Seq<int> {
    seq![u[0] - v[0], u[1] - v[1], u[2] - v[2], u[3] - v[3], u[4] - v[4]]
}

proof fn lemma_joined_poly(u: Seq<int>, v: Seq<int>, r: int)
    ensures
        peval(five_errors(u, v), r) == joined_values(u, r) - joined_values(v, r),
{
    let e = five_errors(u, v);
    reveal_with_fuel(peval, 6);
    assert(e.drop_first() =~= seq![e[1], e[2], e[3], e[4]]);
    assert(e.drop_first().drop_first() =~= seq![e[2], e[3], e[4]]);
    assert(e.drop_first().drop_first().drop_first() =~= seq![e[3], e[4]]);
    assert(e.drop_first().drop_first().drop_first().drop_first() =~= seq![e[4]]);
    assert(r * 0 == 0);
    lemma_nested(e[0], e[1], e[2], e[3], e[4], r);
    lemma_nested(u[0], u[1], u[2], u[3], u[4], r);
    lemma_nested(v[0], v[1], v[2], v[3], v[4], r);
    let (a, b, c) = (u[4], v[4], u[4] - v[4]);
    assert(r * c == r * a - r * b) by (nonlinear_arith)
        requires
            c == a - b,
    ;
    let (a1, b1, c1) = (u[3] + r * a, v[3] + r * b, e[3] + r * c);
    assert(r * c1 == r * a1 - r * b1) by (nonlinear_arith)
        requires
            c1 == a1 - b1,
    ;
    let (a2, b2, c2) = (u[2] + r * a1, v[2] + r * b1, e[2] + r * c1);
    assert(r * c2 == r * a2 - r * b2) by (nonlinear_arith)
        requires
            c2 == a2 - b2,
    ;
    let (a3, b3, c3) = (u[1] + r * a2, v[1] + r * b2, e[1] + r * c2);
    assert(r * c3 == r * a3 - r * b3) by (nonlinear_arith)
        requires
            c3 == a3 - b3,
    ;
}

/// A check of a joined product that is accepted, and leaves right claims on five rows and a
/// vector, shows that the products are right; unless in some round messages that differ
/// meet at the challenge, or the challenge that joins the products is a zero of the
/// polynomial whose coefficients are their errors.
pub proof fn law_sound_linear(m: Seq<Seq<int>>, z: Seq<int>, st: State)
    requires
        m.len() == 5,
        same_len(m, z.len() as int),
        0 < z.len() <= pow2(linear_start(st).2 as nat),
        0 <= linear_start(st).2,
        ({
            let (end, k) = verify_linear(st);
            &&& end.ok
            &&& cong(k.m, joined_values(five_values(m, k.point), k.r))
            &&& cong(k.z, mle(z, k.point))
        }),
    ensures
        ({
            let (sums, r, nv, start) = linear_start(st);
            let errors = five_errors(sums, five_dots(m, z));
            ||| all_zero(errors)
            ||| !all_zero(errors) && cong(peval(errors, r), 0)
            ||| met(
                joined_values(sums, r),
                nv,
                2,
                start,
                product2(),
                Seq::empty(),
                seq![joined(m, r), z],
                z.len() as int,
            )
        }),
{
    reveal(verify_linear);
    let (sums, r, nv, start) = linear_start(st);
    let n = z.len() as int;
    let claim = joined_values(sums, r);
    let (point, y, st4) = verify_rounds(claim, nv, 2, start);
    let (st5, v) = read_fs(st4, 2);
    let j = joined(m, r);
    let tabs = seq![j, z];
    let none = Seq::<int>::empty();
    let g = product2();
    assert(m[0].len() == n);
    lemma_gate_degrees();
    reveal_with_fuel(gate_fits, 5);
    lemma_vanishing(none);
    assert(same_len(tabs, n)) by {
        assert forall|t: int| 0 <= t < tabs.len() implies (#[trigger] tabs[t]).len() == n by {}
    }
    lemma_joined_sums(m, r, z, point);
    let x = values_at(tabs, point);
    lemma_gate_values(x, none);
    assert(x[0] == mle(tabs[0], point));
    assert(x[1] == mle(tabs[1], point));
    lemma_cong_ops(v[0], x[0], v[1], x[1]);
    law_sound_rounds(g, none, tabs, n, 2, nv, claim, start);
    let f = |i: int| crate::replay::row_value(g, none, tabs, i);
    let h = |i: int| j[i] * z[i];
    assert forall|i: int| 0 <= i < n implies #[trigger] f(i) == h(i) by {
        let u = row_at(tabs, i);
        lemma_gate_values(u, none);
        assert(u[0] == at(tabs[0], i));
        assert(u[1] == at(tabs[1], i));
    }
    lemma_sum_eq(n, f, h);
    let d = joined_values(five_dots(m, z), r);
    if cong(claim, d) {
        lemma_joined_poly(sums, five_dots(m, z), r);
        lemma_cong_ops(claim, d, d, d);
    }
}

} // verus!
