//! What a verifier finds when it reads what a prover sent.
use vstd::prelude::*;
use vstd::arithmetic::power2::*;
use crate::channel::{
    State, challenge, challenges, longest, read_f, read_fs, read_len, read_list, read_points,
    read_u, require,
};
use crate::field::cong;
use crate::interpolation::{gate_poly, law_extrapolate, lemma_gate_poly, lemma_psum, peval, psum};
use crate::poly::{at, fold, lemma_half_len, lemma_mle_constant, lemma_mle_fold};
use crate::speaker::{Sent, drawn, send_fs, send_list, send_points, send_rounds, send_u};
use crate::sumcheck::{
    Gate, extrapolate, fold_tables, gate_degree, gate_fits, gate_value, line, messages, off_nodes,
    round_message, round_sum, same_len, values_at, verify_rounds,
};
use crate::sums::{lemma_pow2_step, lemma_sum_add, lemma_sum_eq, lemma_sum_pairs, sum_to};

verus! {

/// What was sent in the end starts with what was sent so far.
pub open spec fn extends(full: Sent, s: Sent) -> bool {
    &&& s.u.len() <= full.u.len()
    &&& s.f.len() <= full.f.len()
    &&& s.g.len() <= full.g.len()
    &&& s.u == full.u.take(s.u.len() as int)
    &&& s.f == full.f.take(s.f.len() as int)
    &&& s.g == full.g.take(s.g.len() as int)
}

/// What is left to read of all that was sent, after what was sent so far.
pub open spec fn rest_of(full: Sent, s: Sent) -> State {
    State {
        u: full.u.skip(s.u.len() as int),
        f: full.f.skip(s.f.len() as int),
        g: full.g.skip(s.g.len() as int),
        ch: s.ch,
        ok: true,
    }
}

/// Starting is a matter of what comes first, however it goes on.
pub proof fn lemma_extends(full: Sent, s: Sent, t: Sent)
    requires
        extends(full, t),
        extends(t, s),
    ensures
        extends(full, s),
{
    assert(full.u.take(t.u.len() as int).take(s.u.len() as int) =~= full.u.take(
        s.u.len() as int,
    ));
    assert(full.f.take(t.f.len() as int).take(s.f.len() as int) =~= full.f.take(
        s.f.len() as int,
    ));
    assert(full.g.take(t.g.len() as int).take(s.g.len() as int) =~= full.g.take(
        s.g.len() as int,
    ));
}

/// What was sent starts with itself.
pub proof fn lemma_extends_self(s: Sent, ch: Seq<int>)
    ensures
        extends(s, s),
        extends(Sent { ch, ..s }, s),
        extends(s, Sent { ch, ..s }),
{
    assert(s.u.take(s.u.len() as int) =~= s.u);
    assert(s.f.take(s.f.len() as int) =~= s.f);
    assert(s.g.take(s.g.len() as int) =~= s.g);
}

proof fn lemma_prefix_step(full: Seq<int>, s: Seq<int>, v: Seq<int>)
    requires
        s.len() + v.len() <= full.len(),
        s + v == full.take((s.len() + v.len()) as int),
    ensures
        s == full.take(s.len() as int),
        full.skip(s.len() as int).len() >= v.len(),
        full.skip(s.len() as int).take(v.len() as int) == v,
        full.skip(s.len() as int).skip(v.len() as int) == full.skip((s + v).len() as int),
{
    let n = s.len() as int;
    let m = v.len() as int;
    assert(s =~= (s + v).take(n));
    assert((s + v).take(n) =~= full.take(n));
    assert(full.skip(n).take(m) =~= full.take(n + m).skip(n));
    assert((s + v).skip(n) =~= v);
    assert(full.skip(n).skip(m) =~= full.skip(n + m));
}

/// Field elements are read as they were sent.
pub proof fn lemma_read_fs(full: Sent, s: Sent, v: Seq<int>)
    requires
        extends(full, send_fs(s, v)),
    ensures
        extends(full, s),
        read_fs(rest_of(full, s), v.len() as int) == (rest_of(full, send_fs(s, v)), v),
{
    lemma_prefix_step(full.f, s.f, v);
}

/// A field element is read as it was sent.
pub proof fn lemma_read_f(full: Sent, s: Sent, x: int)
    requires
        extends(full, send_fs(s, seq![x])),
    ensures
        extends(full, s),
        read_f(rest_of(full, s)) == (rest_of(full, send_fs(s, seq![x])), x),
{
    lemma_prefix_step(full.f, s.f, seq![x]);
    let r = full.f.skip(s.f.len() as int);
    assert(r.take(1)[0] == r[0]);
    assert(r.skip(1) =~= r.drop_first());
}

/// A word is read as it was sent.
pub proof fn lemma_read_u(full: Sent, s: Sent, x: int)
    requires
        extends(full, send_u(s, x)),
    ensures
        extends(full, s),
        read_u(rest_of(full, s)) == (rest_of(full, send_u(s, x)), x),
{
    assert(s.u.push(x) =~= s.u + seq![x]);
    lemma_prefix_step(full.u, s.u, seq![x]);
    let r = full.u.skip(s.u.len() as int);
    assert(r.take(1)[0] == r[0]);
    assert(r.skip(1) =~= r.drop_first());
}

/// A length is read as it was sent.
pub proof fn lemma_read_len(full: Sent, s: Sent, x: int, least: int)
    requires
        extends(full, send_u(s, x)),
        least <= x <= longest(),
    ensures
        extends(full, s),
        read_len(rest_of(full, s), least) == (rest_of(full, send_u(s, x)), x),
{
    lemma_read_u(full, s, x);
}

/// A list is read as it was sent.
pub proof fn lemma_read_list(full: Sent, s: Sent, v: Seq<int>)
    requires
        extends(full, send_list(s, v)),
    ensures
        extends(full, s),
        read_list(rest_of(full, s)) == (rest_of(full, send_list(s, v)), v),
{
    let t = send_u(s, v.len() as int);
    assert(send_list(s, v) == send_fs(t, v));
    lemma_read_fs(full, t, v);
    lemma_read_u(full, s, v.len() as int);
}

/// Points are read as they were sent.
pub proof fn lemma_read_points(full: Sent, s: Sent, v: Seq<int>)
    requires
        extends(full, send_points(s, v)),
    ensures
        extends(full, s),
        read_points(rest_of(full, s)) == (rest_of(full, send_points(s, v)), v),
{
    let t = send_u(s, v.len() as int);
    lemma_prefix_step(full.g, s.g, v);
    assert(extends(full, t));
    lemma_read_u(full, s, v.len() as int);
}

/// A challenge is what comes next.
pub proof fn lemma_challenge(full: Sent, s: Sent)
    requires
        s.ch.len() > 0,
    ensures
        challenge(rest_of(full, s)) == (rest_of(full, drawn(s, 1)), s.ch[0]),
        extends(full, drawn(s, 1)) == extends(full, s),
{
    assert(s.ch.skip(1) =~= s.ch.drop_first());
}

/// Challenges are what comes next.
pub proof fn lemma_challenges(full: Sent, s: Sent, n: int)
    requires
        0 <= n <= s.ch.len(),
    ensures
        challenges(rest_of(full, s), n) == (rest_of(full, drawn(s, n)), s.ch.take(n)),
        extends(full, drawn(s, n)) == extends(full, s),
{
}

/// The values of the tables at one place.
pub open spec fn row_at(tabs: Seq<Seq<int>>, j: int) -> Seq<int> {
    tabs.map_values(|t: Seq<int>| at(t, j))
}

/// The value of an expression at one place of the tables.
pub open spec fn row_value(g: Gate, coins: Seq<int>, tabs: Seq<Seq<int>>, j: int) -> int {
    gate_value(g, row_at(tabs, j), coins)
}

/// The sum of an expression over the first `len` places of the tables.
pub open spec fn whole_sum(g: Gate, coins: Seq<int>, tabs: Seq<Seq<int>>, len: int) -> int {
    sum_to(len, |j: int| row_value(g, coins, tabs, j))
}

/// An expression is zero where all its tables are.
pub open spec fn vanishes(g: Gate, coins: Seq<int>, n: nat) -> bool {
    gate_value(g, Seq::new(n, |i: int| 0int), coins) == 0
}

/// None of the challenges is a node.
pub open spec fn all_off(d: int, rs: Seq<int>) -> bool {
    forall|i: int| 0 <= i < rs.len() ==> off_nodes(d, #[trigger] rs[i])
}

/// The steps of the tables along one line.
pub open spec fn line_steps(tabs: Seq<Seq<int>>, j: int) -> Seq<int> {
    tabs.map_values(|t: Seq<int>| at(t, 2 * j + 1) - at(t, 2 * j))
}

/// The coefficients of an expression along one line.
pub open spec fn line_poly(g: Gate, coins: Seq<int>, tabs: Seq<Seq<int>>, j: int) -> Seq<int> {
    gate_poly(g, row_at(tabs, 2 * j), line_steps(tabs, j), coins)
}

/// The sum over the lines is a polynomial of the degree of the expression.
pub proof fn lemma_round_poly(
    g: Gate,
    coins: Seq<int>,
    tabs: Seq<Seq<int>>,
    len: int,
    d: int,
    x: int,
)
    requires
        gate_fits(g, tabs.len(), coins.len()),
        gate_degree(g) <= d,
    ensures
        ({
            let c = psum((len + 1) / 2, |j: int| line_poly(g, coins, tabs, j));
            c.len() <= d + 1 && round_sum(g, coins, tabs, len, x) == peval(c, x)
        }),
{
    let m = (len + 1) / 2;
    let f = |j: int| line_poly(g, coins, tabs, j);
    let a = |j: int| gate_value(g, line(tabs, j, x), coins);
    let b = |j: int| peval(f(j), x);
    assert forall|j: int| 0 <= j < m implies (#[trigger] f(j)).len() <= (d + 1) as nat && a(j)
        == b(j) by {
        let v = line(tabs, j, x);
        let lo = row_at(tabs, 2 * j);
        let st = line_steps(tabs, j);
        assert forall|i: int| 0 <= i < tabs.len() implies #[trigger] v[i] == lo[i] + st[i] * x by {
            assert(lo[i] == at(tabs[i], 2 * j));
            assert(st[i] == at(tabs[i], 2 * j + 1) - at(tabs[i], 2 * j));
        }
        lemma_gate_poly(g, lo, st, coins, tabs.len(), v, x);
    }
    assert forall|j: int| 0 <= j < m implies #[trigger] a(j) == b(j) by {
        assert(f(j).len() <= (d + 1) as nat);
    }
    lemma_psum(m, f, (d + 1) as nat, x);
    lemma_sum_eq(m, a, b);
}

/// The two halves of a round's sum are the sum over all places.
pub proof fn lemma_round_halves(g: Gate, coins: Seq<int>, tabs: Seq<Seq<int>>, len: int)
    requires
        same_len(tabs, len),
        0 < len,
        len % 2 == 0 || vanishes(g, coins, tabs.len()),
    ensures
        round_sum(g, coins, tabs, len, 0) + round_sum(g, coins, tabs, len, 1) == whole_sum(
            g,
            coins,
            tabs,
            len,
        ),
{
    let m = (len + 1) / 2;
    let a = |j: int| gate_value(g, line(tabs, j, 0), coins);
    let b = |j: int| gate_value(g, line(tabs, j, 1), coins);
    let w = |j: int| row_value(g, coins, tabs, j);
    lemma_sum_add(m, a, b);
    lemma_sum_pairs(m, w);
    let ab = |j: int| a(j) + b(j);
    let ww = |i: int| w(2 * i) + w(2 * i + 1);
    assert forall|j: int| 0 <= j < m implies #[trigger] ab(j) == ww(j) by {
        assert(line(tabs, j, 0) =~= row_at(tabs, 2 * j)) by {
            assert forall|t: int| 0 <= t < tabs.len() implies line(tabs, j, 0)[t] == row_at(
                tabs,
                2 * j,
            )[t] by {
                let d = at(tabs[t], 2 * j + 1) - at(tabs[t], 2 * j);
                assert(d * 0 == 0);
            }
        }
        assert(line(tabs, j, 1) =~= row_at(tabs, 2 * j + 1)) by {
            assert forall|t: int| 0 <= t < tabs.len() implies line(tabs, j, 1)[t] == row_at(
                tabs,
                2 * j + 1,
            )[t] by {
                let d = at(tabs[t], 2 * j + 1) - at(tabs[t], 2 * j);
                assert(d * 1 == d);
            }
        }
    }
    lemma_sum_eq(m, ab, ww);
    if len % 2 == 1 {
        assert(row_at(tabs, len) =~= Seq::new(tabs.len(), |i: int| 0int));
        assert(w(len) == 0);
        assert(sum_to(2 * m, w) == sum_to(len, w) + w(len));
    }
}

/// The sum at the challenge is the sum over the folded tables.
pub proof fn lemma_round_fold(g: Gate, coins: Seq<int>, tabs: Seq<Seq<int>>, len: int, r: int)
    requires
        same_len(tabs, len),
        0 < len,
    ensures
        round_sum(g, coins, tabs, len, r) == whole_sum(
            g,
            coins,
            fold_tables(tabs, r),
            (len + 1) / 2,
        ),
        same_len(fold_tables(tabs, r), (len + 1) / 2),
{
    let m = (len + 1) / 2;
    let next = fold_tables(tabs, r);
    let a = |j: int| gate_value(g, line(tabs, j, r), coins);
    let b = |j: int| row_value(g, coins, next, j);
    assert forall|j: int| 0 <= j < m implies #[trigger] a(j) == b(j) by {
        assert(line(tabs, j, r) =~= row_at(next, j)) by {
            assert forall|t: int| 0 <= t < tabs.len() implies line(tabs, j, r)[t] == row_at(
                next,
                j,
            )[t] by {
                assert(next[t] == fold(tabs[t], r));
                assert(tabs[t].len() == len);
            }
        }
    }
    lemma_sum_eq(m, a, b);
    assert forall|t: int| 0 <= t < next.len() implies (#[trigger] next[t]).len() == m by {
        assert(next[t] == fold(tabs[t], r));
        assert(tabs[t].len() == len);
    }
}

/// The verifier of a sumcheck accepts what its prover sends for the right sum, and is
/// left with the value of the expression at the challenges.
pub proof fn law_rounds(
    g: Gate,
    coins: Seq<int>,
    tabs: Seq<Seq<int>>,
    len: int,
    d: int,
    nv: int,
    claim: int,
    full: Sent,
    s: Sent,
)
    requires
        gate_fits(g, tabs.len(), coins.len()),
        gate_degree(g) <= d,
        1 <= d <= u64::MAX,
        same_len(tabs, len),
        0 <= nv <= s.ch.len(),
        0 < len <= pow2(nv as nat),
        len == pow2(nv as nat) || vanishes(g, coins, tabs.len()),
        all_off(d, s.ch.take(nv)),
        cong(claim, whole_sum(g, coins, tabs, len)),
        extends(full, send_rounds(s, g, coins, tabs, len, d, nv)),
    ensures
        extends(full, s),
        ({
            let (p, y, st) = verify_rounds(claim, nv, d, rest_of(full, s));
            &&& p == s.ch.take(nv)
            &&& cong(y, gate_value(g, values_at(tabs, s.ch.take(nv)), coins))
            &&& st == rest_of(full, send_rounds(s, g, coins, tabs, len, d, nv))
        }),
    decreases nv,
{
    let rs = s.ch.take(nv);
    let end = send_rounds(s, g, coins, tabs, len, d, nv);
    if nv == 0 {
        lemma_pow2_step(0);
        assert(rs =~= Seq::<int>::empty());
        assert(messages(g, coins, tabs, len, d, rs) =~= Seq::<int>::empty());
        assert(end.f =~= s.f);
        assert(end.ch =~= s.ch);
        let w = |j: int| row_value(g, coins, tabs, j);
        reveal_with_fuel(sum_to, 2);
        assert(sum_to(1, w) == w(0));
        assert(row_at(tabs, 0) =~= values_at(tabs, rs)) by {
            assert forall|t: int| 0 <= t < tabs.len() implies row_at(tabs, 0)[t] == values_at(
                tabs,
                rs,
            )[t] by {
                assert(tabs[t].len() == 1);
                lemma_mle_constant(tabs[t]);
            }
        }
    } else {
        let r = rs[0];
        let m = (len + 1) / 2;
        let next = fold_tables(tabs, r);
        let msg = round_message(g, coins, tabs, len, d);
        let s0 = send_fs(s, msg);
        let s1 = drawn(s0, 1);
        let rest = s1.ch.take(nv - 1);
        assert(rest =~= rs.drop_first());
        assert(messages(g, coins, tabs, len, d, rs) == msg + messages(
            g,
            coins,
            next,
            m,
            d,
            rs.drop_first(),
        ));
        let end1 = send_rounds(s1, g, coins, next, m, d, nv - 1);
        assert(end1.f =~= end.f);
        assert(end1.ch =~= end.ch);
        assert(end1 == end);
        lemma_half_len(len, (nv - 1) as nat);
        lemma_pow2_step((nv - 1) as nat);
        lemma_round_halves(g, coins, tabs, len);
        lemma_round_fold(g, coins, tabs, len, r);
        assert(all_off(d, rest)) by {
            assert forall|i: int| 0 <= i < rest.len() implies off_nodes(d, #[trigger] rest[i]) by {
                assert(rest[i] == rs[i + 1]);
            }
        }
        let c = psum(m, |j: int| line_poly(g, coins, tabs, j));
        assert forall|i: int| 0 <= i <= d implies #[trigger] msg[i] == peval(c, i) by {
            lemma_round_poly(g, coins, tabs, len, d, i);
        }
        lemma_round_poly(g, coins, tabs, len, d, r);
        assert(off_nodes(d, rs[0]));
        law_extrapolate(d, c, msg, r);
        let y = extrapolate(d, msg, r);
        law_rounds(g, coins, next, m, d, nv - 1, y, full, s1);
        assert(extends(full, s0));
        lemma_read_fs(full, s, msg);
        lemma_challenge(full, s0);
        assert(values_at(tabs, rs) =~= values_at(next, rest)) by {
            assert forall|t: int| 0 <= t < tabs.len() implies values_at(tabs, rs)[t] == values_at(
                next,
                rest,
            )[t] by {
                lemma_mle_fold(tabs[t], rs);
                assert(next[t] == fold(tabs[t], r));
            }
        }
        let st = rest_of(full, s0);
        assert(require(st, cong(msg[0] + msg[1], claim)) == st);
        let st1 = rest_of(full, s1);
        assert(require(st1, off_nodes(d, r)) == st1);
        let sub = verify_rounds(y, nv - 1, d, st1);
        assert(verify_rounds(claim, nv, d, rest_of(full, s)) == (
            seq![r] + sub.0,
            sub.1,
            sub.2,
        ));
        assert(seq![r] + sub.0 =~= rs);
    }
}

} // verus!
