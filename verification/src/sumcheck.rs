//! The sumcheck protocol, for sums over the hypercube of a low-degree expression
//! in multilinear polynomials.
use vstd::prelude::*;
use vstd::arithmetic::power2::*;
use crate::channel::{Channel, State, challenge, read_fs, require};
use crate::field::{Fr, cong, inverse_of, invertible, lemma_invertible_one, tables, values};
use crate::poly::{at, fold, fold_values, lemma_half_len, lemma_mle_constant, lemma_mle_fold, mle};
use crate::sums::{lemma_pow2_step, product_to, sum_to};
use crate::units::law_word_invertible;
use crate::util::{Proof, RandomOracle, Tape, batch_inverse, lemma_product_invertible};

verus! {

/// An expression in the values of some tables and in some coins.
pub enum Gate {
    Constant(i64),
    Var(usize),
    Coin(usize),
    Add(Box<Gate>, Box<Gate>),
    Sub(Box<Gate>, Box<Gate>),
    Mul(Box<Gate>, Box<Gate>),
}

/// The value of an expression.
pub open spec fn gate_value(g: Gate, v: Seq<int>, coins: Seq<int>) -> int
    decreases g,
{
    match g {
        Gate::Constant(x) => x as int,
        Gate::Var(i) => v[i as int],
        Gate::Coin(i) => coins[i as int],
        Gate::Add(a, b) => gate_value(*a, v, coins) + gate_value(*b, v, coins),
        Gate::Sub(a, b) => gate_value(*a, v, coins) - gate_value(*b, v, coins),
        Gate::Mul(a, b) => gate_value(*a, v, coins) * gate_value(*b, v, coins),
    }
}

/// The expression reads no table past `vars` and no coin past `coins`.
pub open spec fn gate_fits(g: Gate, vars: nat, coins: nat) -> bool
    decreases g,
{
    match g {
        Gate::Constant(x) => true,
        Gate::Var(i) => i < vars,
        Gate::Coin(i) => i < coins,
        Gate::Add(a, b) => gate_fits(*a, vars, coins) && gate_fits(*b, vars, coins),
        Gate::Sub(a, b) => gate_fits(*a, vars, coins) && gate_fits(*b, vars, coins),
        Gate::Mul(a, b) => gate_fits(*a, vars, coins) && gate_fits(*b, vars, coins),
    }
}

/// The degree of an expression in the values of the tables.
pub open spec fn gate_degree(g: Gate) -> nat
    decreases g,
{
    match g {
        Gate::Constant(x) => 0,
        Gate::Var(i) => 1,
        Gate::Coin(i) => 0,
        Gate::Add(a, b) => if gate_degree(*a) >= gate_degree(*b) {
            gate_degree(*a)
        } else {
            gate_degree(*b)
        },
        Gate::Sub(a, b) => if gate_degree(*a) >= gate_degree(*b) {
            gate_degree(*a)
        } else {
            gate_degree(*b)
        },
        Gate::Mul(a, b) => gate_degree(*a) + gate_degree(*b),
    }
}

impl Gate {
    /// A copy of the expression.
    pub fn copy(&self) -> (out: Gate)
        ensures
            out == *self,
        decreases *self,
    {
        match self {
            Gate::Constant(x) => Gate::Constant(*x),
            Gate::Var(i) => Gate::Var(*i),
            Gate::Coin(i) => Gate::Coin(*i),
            Gate::Add(a, b) => Gate::Add(Box::new(a.copy()), Box::new(b.copy())),
            Gate::Sub(a, b) => Gate::Sub(Box::new(a.copy()), Box::new(b.copy())),
            Gate::Mul(a, b) => Gate::Mul(Box::new(a.copy()), Box::new(b.copy())),
        }
    }

    /// The value of the expression.
    pub fn eval(&self, v: &Vec<Fr>, coins: &Vec<Fr>) -> (out: Fr)
        requires
            gate_fits(*self, v.len() as nat, coins.len() as nat),
        ensures
            out@ == gate_value(*self, values(v@), values(coins@)),
        decreases self,
    {
        match self {
            Gate::Constant(x) => Fr::from_i64(*x),
            Gate::Var(i) => v[*i],
            Gate::Coin(i) => coins[*i],
            Gate::Add(a, b) => a.eval(v, coins) + b.eval(v, coins),
            Gate::Sub(a, b) => a.eval(v, coins) - b.eval(v, coins),
            Gate::Mul(a, b) => a.eval(v, coins) * b.eval(v, coins),
        }
    }
}

/// A constant.
pub fn constant(x: i64) -> (out: Gate)
    ensures
        out == Gate::Constant(x),
{
    Gate::Constant(x)
}

/// The value of a table.
pub fn var(i: usize) -> (out: Gate)
    ensures
        out == Gate::Var(i),
{
    Gate::Var(i)
}

/// A coin.
pub fn coin(i: usize) -> (out: Gate)
    ensures
        out == Gate::Coin(i),
{
    Gate::Coin(i)
}

/// A sum.
pub fn plus(a: Gate, b: Gate) -> (out: Gate)
    ensures
        out == Gate::Add(Box::new(a), Box::new(b)),
{
    Gate::Add(Box::new(a), Box::new(b))
}

/// A difference.
pub fn minus(a: Gate, b: Gate) -> (out: Gate)
    ensures
        out == Gate::Sub(Box::new(a), Box::new(b)),
{
    Gate::Sub(Box::new(a), Box::new(b))
}

/// A product.
pub fn times(a: Gate, b: Gate) -> (out: Gate)
    ensures
        out == Gate::Mul(Box::new(a), Box::new(b)),
{
    Gate::Mul(Box::new(a), Box::new(b))
}

/// The number of variables that `n` values need; at least one.
pub open spec fn log2_ceil(n: int) -> nat
    decreases n,
{
    if n <= 2 {
        1
    } else {
        1 + log2_ceil((n + 1) / 2)
    }
}

/// Two to the power of `log2_ceil(n)` is the least such power, from two on, that
/// is at least `n`.
pub proof fn lemma_log2_ceil(n: int)
    ensures
        n <= pow2(log2_ceil(n)),
        log2_ceil(n) >= 1,
        n > 2 ==> pow2((log2_ceil(n) - 1) as nat) < n,
        n <= 2 ==> log2_ceil(n) == 1,
    decreases n,
{
    lemma_pow2_step(0);
    if n > 2 {
        let m = (n + 1) / 2;
        lemma_log2_ceil(m);
        lemma_pow2_step(log2_ceil(m));
        lemma_pow2_step((log2_ceil(m) - 1) as nat);
        if m <= 2 {
            assert(log2_ceil(m) == 1);
        }
    }
}

/// A length that is not too long needs few enough variables.
pub proof fn lemma_log2_fits(n: int)
    requires
        n <= crate::channel::longest(),
    ensures
        pow2(log2_ceil(n)) <= usize::MAX,
        log2_ceil(n) < 64,
{
    lemma_log2_ceil(n);
    lemma_pow2_step(0);
    if n > 2 {
        lemma_pow2_step((log2_ceil(n) - 1) as nat);
    }
    crate::sums::lemma_pow2_fits(log2_ceil(n));
}

/// `log2_ceil` is the only number with its property.
pub proof fn lemma_log2_unique(n: int, k: nat)
    requires
        n <= pow2(k),
        k >= 1,
        k > 1 ==> pow2((k - 1) as nat) < n,
    ensures
        log2_ceil(n) == k,
    decreases k,
{
    lemma_pow2_step(0);
    lemma_pow2_step((k - 1) as nat);
    if k > 1 {
        lemma_pow2_step((k - 2) as nat);
        lemma_log2_unique((n + 1) / 2, (k - 1) as nat);
    }
}

/// The number of variables that `n` values need.
pub fn log2_ceil_exec(n: usize) -> (out: usize)
    ensures
        out == log2_ceil(n as int),
        out <= n + 1,
{
    let mut m: usize = n;
    let mut out: usize = 1;
    while m > 2
        invariant
            log2_ceil(n as int) == out - 1 + log2_ceil(m as int),
            1 <= out,
            out + m <= n + 1,
        decreases m,
    {
        m = m / 2 + m % 2;
        out = out + 1;
    }
    out
}

/// The values of the tables on the line through vertices `2 * j` and `2 * j + 1`,
/// at `x`.
pub open spec fn line(tabs: Seq<Seq<int>>, j: int, x: int) -> Seq<int> {
    tabs.map_values(
        |t: Seq<int>| at(t, 2 * j) + (at(t, 2 * j + 1) - at(t, 2 * j)) * x,
    )
}

/// The sum over the lines of the first variable of the expression, at `x`.
pub open spec fn round_sum(g: Gate, coins: Seq<int>, tabs: Seq<Seq<int>>, len: int, x: int) -> int {
    sum_to((len + 1) / 2, |j: int| gate_value(g, line(tabs, j, x), coins))
}

/// The message of one round: the sums at zero up to the degree.
pub open spec fn round_message(
    g: Gate,
    coins: Seq<int>,
    tabs: Seq<Seq<int>>,
    len: int,
    degree: int,
) -> Seq<int> {
    Seq::new((degree + 1) as nat, |x: int| round_sum(g, coins, tabs, len, x))
}

/// The tables with their first variable set to `r`.
pub open spec fn fold_tables(tabs: Seq<Seq<int>>, r: int) -> Seq<Seq<int>> {
    tabs.map_values(|t: Seq<int>| fold(t, r))
}

/// The messages of all the rounds, for the given challenges.
pub open spec fn messages(
    g: Gate,
    coins: Seq<int>,
    tabs: Seq<Seq<int>>,
    len: int,
    degree: int,
    rs: Seq<int>,
) -> Seq<int>
    decreases rs.len(),
{
    if rs.len() == 0 {
        Seq::empty()
    } else {
        round_message(g, coins, tabs, len, degree) + messages(
            g,
            coins,
            fold_tables(tabs, rs[0]),
            (len + 1) / 2,
            degree,
            rs.drop_first(),
        )
    }
}

/// The values of the tables at a point.
pub open spec fn values_at(tabs: Seq<Seq<int>>, point: Seq<int>) -> Seq<int> {
    tabs.map_values(|t: Seq<int>| mle(t, point))
}

/// All the tables have length `len`.
pub open spec fn same_len(tabs: Seq<Seq<int>>, len: int) -> bool {
    forall|t: int| 0 <= t < tabs.len() ==> (#[trigger] tabs[t]).len() == len
}

/// The entry with index `i`, or zero past the end.
pub fn entry(v: &Vec<Fr>, i: usize) -> (out: Fr)
    ensures
        out@ == at(values(v@), i as int),
{
    if i < v.len() {
        v[i]
    } else {
        Fr::zero()
    }
}

fn round_sum_exec(
    gate: &Gate,
    coins: &Vec<Fr>,
    tabs: &Vec<Vec<Fr>>,
    len: usize,
    x: usize,
) -> (out: Fr)
    requires
        gate_fits(*gate, tabs.len() as nat, coins.len() as nat),
        len < usize::MAX,
    ensures
        out@ == round_sum(*gate, values(coins@), tables(tabs@), len as int, x as int),
{
    let step = Fr::from_usize(x);
    let half: usize = len / 2 + len % 2;
    let mut acc = Fr::zero();
    let ghost tv = tables(tabs@);
    for j in 0..half
        invariant
            half == (len + 1) / 2,
            len < usize::MAX,
            tv == tables(tabs@),
            step@ == x,
            gate_fits(*gate, tabs.len() as nat, coins.len() as nat),
            acc@ == sum_to(
                j as int,
                |j: int| gate_value(*gate, line(tv, j, x as int), values(coins@)),
            ),
    {
        let mut row: Vec<Fr> = Vec::new();
        for t in 0..tabs.len()
            invariant
                j < half,
                half == (len + 1) / 2,
                len < usize::MAX,
                tv == tables(tabs@),
                step@ == x,
                row.len() == t,
                forall|k: int| 0 <= k < t ==> (#[trigger] row[k])@ == line(tv, j as int, x as int)[k],
        {
            let lo = entry(&tabs[t], 2 * j);
            let hi = entry(&tabs[t], 2 * j + 1);
            row.push(lo + (hi - lo) * step);
        }
        assert(values(row@) =~= line(tv, j as int, x as int));
        acc = acc + gate.eval(&row, coins);
    }
    acc
}

/// Runs the prover's side: sends the message of each round and sets the first
/// variable to the challenge that comes back. Returns the challenges and the
/// values of the tables there.
pub fn prove_rounds(
    gate: &Gate,
    coins: &Vec<Fr>,
    tabs: Vec<Vec<Fr>>,
    degree: usize,
    nv: usize,
    proof: &mut Proof,
    ro: &mut RandomOracle,
) -> (out: (Vec<Fr>, Vec<Fr>))
    requires
        tabs.len() > 0,
        0 < tabs[0].len() <= pow2(nv as nat),
        tabs[0].len() < usize::MAX,
        same_len(tables(tabs@), tabs[0].len() as int),
        gate_fits(*gate, tabs.len() as nat, coins.len() as nat),
        degree < usize::MAX,
        old(ro)@.len() >= nv,
    ensures
        values(out.0@) == old(ro)@.take(nv as int),
        values(out.1@) == values_at(tables(tabs@), values(out.0@)),
        final(ro)@ == old(ro)@.skip(nv as int),
        final(ro).all() == old(ro).all(),
        final(ro).all_ints() == old(ro).all_ints(),
        final(ro).ints() == old(ro).ints(),
        final(proof)@ == (Tape {
            f: old(proof)@.f + messages(
                *gate,
                values(coins@),
                tables(tabs@),
                tabs[0].len() as int,
                degree as int,
                old(ro)@.take(nv as int),
            ),
            ..old(proof)@
        }),
{
    let ghost start = proof@;
    let ghost rs = ro@.take(nv as int);
    let ghost cv = values(coins@);
    let ghost orig = tables(tabs@);
    let ghost len0 = tabs[0].len() as int;
    let num: usize = tabs.len();
    let mut folded = tabs;
    let mut len: usize = folded[0].len();
    let mut point: Vec<Fr> = Vec::new();
    proof {
        assert(rs.skip(0) =~= rs);
        assert(values(point@) =~= rs.take(0));
        assert(ro@ =~= old(ro)@.skip(0));
        assert(start.f =~= start.f + Seq::<int>::empty());
    }
    let ghost mut sent: Seq<int> = Seq::empty();
    for k in 0..nv
        invariant
            old(ro)@.len() >= nv,
            rs == old(ro)@.take(nv as int),
            ro@ == old(ro)@.skip(k as int),
            ro.all() == old(ro).all(),
            ro.all_ints() == old(ro).all_ints(),
            ro.ints() == old(ro).ints(),
            values(point@) == rs.take(k as int),
            point.len() == k,
            num == folded.len(),
            num == orig.len(),
            num > 0,
            len < usize::MAX,
            0 < len <= pow2((nv - k) as nat),
            same_len(tables(folded@), len as int),
            gate_fits(*gate, num as nat, coins.len() as nat),
            degree < usize::MAX,
            cv == values(coins@),
            proof@ == (Tape { f: start.f + sent, ..start }),
            messages(*gate, cv, orig, len0, degree as int, rs) == sent + messages(
                *gate,
                cv,
                tables(folded@),
                len as int,
                degree as int,
                rs.skip(k as int),
            ),
            forall|t: int|
                0 <= t < num ==> mle(#[trigger] orig[t], rs) == mle(
                    tables(folded@)[t],
                    rs.skip(k as int),
                ),
    {
        let ghost before = tables(folded@);
        let ghost msg = round_message(*gate, cv, before, len as int, degree as int);
        let mut sums: Vec<Fr> = Vec::new();
        for x in 0..(degree + 1)
            invariant
                degree < usize::MAX,
                num == folded.len(),
                len < usize::MAX,
                gate_fits(*gate, num as nat, coins.len() as nat),
                before == tables(folded@),
                cv == values(coins@),
                msg == round_message(*gate, cv, before, len as int, degree as int),
                sums.len() == x,
                forall|i: int| 0 <= i < x ==> (#[trigger] sums[i])@ == msg[i],
        {
            sums.push(round_sum_exec(gate, coins, &folded, len, x));
        }
        assert(values(sums@) =~= msg);
        proof.push_f(sums.as_slice());
        let c = ro.next_field();
        point.push(c);
        let ghost rest = rs.skip(k as int);
        proof {
            assert(c@ == rest[0]);
            assert(values(point@) =~= rs.take(k + 1));
            assert(ro@ =~= old(ro)@.skip(k + 1));
            assert(rest.drop_first() =~= rs.skip(k + 1));
            lemma_half_len(len as int, (nv - k - 1) as nat);
        }
        for t in 0..num
            invariant
                num == folded.len(),
                num == before.len(),
                same_len(before, len as int),
                forall|i: int| 0 <= i < t ==> values((#[trigger] folded[i])@) == fold(before[i], c@),
                forall|i: int| t <= i < num ==> values((#[trigger] folded[i])@) == before[i],
        {
            let mut column: Vec<Fr> = Vec::new();
            core::mem::swap(&mut column, &mut folded[t]);
            fold_values(&mut column, c);
            core::mem::swap(&mut column, &mut folded[t]);
        }
        let ghost after = tables(folded@);
        proof {
            assert(after =~= fold_tables(before, c@));
            let m = messages(
                *gate,
                cv,
                after,
                ((len + 1) / 2) as int,
                degree as int,
                rest.drop_first(),
            );
            assert((sent + msg) + m =~= sent + (msg + m));
            assert(start.f + (sent + msg) =~= (start.f + sent) + msg);
            sent = sent + msg;
            assert forall|t: int| 0 <= t < num implies mle(#[trigger] orig[t], rs) == mle(
                after[t],
                rs.skip(k + 1),
            ) by {
                lemma_mle_fold(before[t], rest);
            }
        }
        len = len / 2 + len % 2;
    }
    let mut last: Vec<Fr> = Vec::new();
    proof {
        lemma_pow2_step(0);
        assert(rs.skip(nv as int) =~= Seq::<int>::empty());
        assert(sent + messages(
            *gate,
            cv,
            tables(folded@),
            len as int,
            degree as int,
            rs.skip(nv as int),
        ) =~= sent);
        assert(values(point@) =~= rs);
    }
    for t in 0..num
        invariant
            num == folded.len(),
            num == orig.len(),
            len == 1,
            same_len(tables(folded@), len as int),
            rs.skip(nv as int) == Seq::<int>::empty(),
            forall|t: int|
                0 <= t < num ==> mle(#[trigger] orig[t], rs) == mle(
                    tables(folded@)[t],
                    rs.skip(nv as int),
                ),
            last.len() == t,
            forall|i: int| 0 <= i < t ==> (#[trigger] last[i])@ == mle(orig[i], rs),
    {
        proof {
            lemma_mle_constant(tables(folded@)[t as int]);
            assert(tables(folded@)[t as int].len() == 1);
            assert(mle(orig[t as int], rs) == tables(folded@)[t as int][0]);
        }
        last.push(folded[t][0]);
    }
    assert(values(last@) =~= values_at(orig, rs));
    (point, last)
}

/// The product of the differences of `i` to the other nodes up to `degree`.
pub open spec fn node_product(degree: int, i: int) -> int {
    product_to(degree + 1, |j: int| node_factor(i, j))
}

/// The difference of two nodes, or one for a node and itself.
pub open spec fn node_factor(i: int, j: int) -> int {
    if j == i {
        1
    } else {
        i - j
    }
}

/// `x` differs from each of the nodes zero up to `degree`.
pub open spec fn off_nodes(degree: int, x: int) -> bool {
    forall|i: int| 0 <= i <= degree ==> invertible(#[trigger] (x - i))
}

/// The value at `x` of the polynomial of degree at most `degree` that takes the
/// values `v` at the nodes zero up to `degree`.
pub open spec fn extrapolate(degree: int, v: Seq<int>, x: int) -> int {
    sum_to(degree + 1, |i: int| inverse_of(x - i) * inverse_of(node_product(degree, i)) * v[i])
        * product_to(degree + 1, |i: int| x - i)
}

/// The differences of a node to the others multiply to something invertible.
pub proof fn lemma_node_invertible(degree: int, i: int)
    requires
        0 <= i <= degree <= u64::MAX,
    ensures
        invertible(node_product(degree, i)),
{
    let f = |j: int| node_factor(i, j);
    assert forall|j: int| 0 <= j < degree + 1 implies invertible(#[trigger] f(j)) by {
        if j == i {
            lemma_invertible_one();
        } else {
            law_word_invertible(i - j);
        }
    }
    lemma_product_invertible(degree + 1, f);
}

/// The inverses of the node products.
pub fn init_base(n: usize) -> (out: Vec<Fr>)
    requires
        n < usize::MAX,
    ensures
        out.len() == n + 1,
        forall|i: int| 0 <= i <= n ==> (#[trigger] out[i])@ == inverse_of(node_product(n as int, i)),
{
    let mut res: Vec<Fr> = Vec::new();
    for i in 0..(n + 1)
        invariant
            n < usize::MAX,
            res.len() == i,
            forall|k: int| 0 <= k < i ==> (#[trigger] res[k])@ == node_product(n as int, k),
    {
        let mut prod = Fr::one();
        for j in 0..(n + 1)
            invariant
                n < usize::MAX,
                i <= n,
                prod@ == product_to(j as int, |j: int| node_factor(i as int, j)),
        {
            if i != j {
                prod = prod * (Fr::from_usize(i) - Fr::from_usize(j));
            }
        }
        res.push(prod);
    }
    proof {
        assert forall|i: int| 0 <= i < res.len() implies invertible((#[trigger] res[i])@) by {
            lemma_node_invertible(n as int, i);
        }
    }
    batch_inverse(&mut res);
    res
}

/// The value at `x` of the polynomial that takes the values `v` at the nodes; none
/// if `x` is a node.
pub fn uni_extrapolate(base: &Vec<Fr>, v: &Vec<Fr>, x: Fr) -> (out: Option<Fr>)
    requires
        0 < base.len(),
        v.len() == base.len(),
        forall|i: int|
            0 <= i < base.len() ==> (#[trigger] base[i])@ == inverse_of(
                node_product(base.len() - 1, i),
            ),
    ensures
        out is Some <==> off_nodes(base.len() - 1, x@),
        out is Some ==> out->0@ == extrapolate(base.len() - 1, values(v@), x@),
{
    let n: usize = base.len() - 1;
    let mut prod = Fr::one();
    let mut numerator: Vec<Fr> = Vec::new();
    let mut off: bool = true;
    for i in 0..(n + 1)
        invariant
            n < usize::MAX,
            numerator.len() == i,
            prod@ == product_to(i as int, |j: int| x@ - j),
            forall|j: int| 0 <= j < i ==> (#[trigger] numerator[j])@ == x@ - j,
            off == (forall|j: int| 0 <= j < i ==> invertible(#[trigger] (x@ - j))),
    {
        let d = x - Fr::from_usize(i);
        prod = prod * d;
        numerator.push(d);
        let inv = d.inverse();
        if inv.is_none() {
            off = false;
            assert(!invertible(x@ - i));
        }
    }
    if !off {
        return None;
    }
    proof {
        assert forall|i: int| 0 <= i < numerator.len() implies invertible(
            (#[trigger] numerator[i])@,
        ) by {
            assert(invertible(x@ - i));
        }
    }
    batch_inverse(&mut numerator);
    let mut res = Fr::zero();
    let ghost vv = values(v@);
    for i in 0..(n + 1)
        invariant
            n == base.len() - 1,
            n < usize::MAX,
            v.len() == base.len(),
            vv == values(v@),
            numerator.len() == n + 1,
            forall|j: int| 0 <= j <= n ==> (#[trigger] numerator[j])@ == inverse_of(x@ - j),
            forall|i: int|
                0 <= i < base.len() ==> (#[trigger] base[i])@ == inverse_of(
                    node_product(base.len() - 1, i),
                ),
            res@ == sum_to(
                i as int,
                |i: int| inverse_of(x@ - i) * inverse_of(node_product(n as int, i)) * vv[i],
            ),
    {
        res = res + numerator[i] * base[i] * v[i];
    }
    Some(res * prod)
}

/// The verifier's side: in each round the two halves of the claim have to add up
/// to it, and the claim moves to the challenge. Gives the challenges, the last
/// claim and the state after it.
pub open spec fn verify_rounds(y: int, nv: int, degree: int, st: State) -> (Seq<int>, int, State)
    decreases nv,
{
    if nv <= 0 {
        (Seq::empty(), y, st)
    } else {
        let (st1, s) = read_fs(st, degree + 1);
        let st2 = require(st1, cong(s[0] + s[1], y));
        let (st3, x) = challenge(st2);
        let st4 = require(st3, off_nodes(degree, x));
        let next = if off_nodes(degree, x) {
            extrapolate(degree, s, x)
        } else {
            0
        };
        let (p, last, end) = verify_rounds(next, nv - 1, degree, st4);
        (seq![x] + p, last, end)
    }
}

/// Runs the verifier's side.
pub fn verifier_sumcheck(y: Fr, nv: usize, degree: usize, chan: &mut Channel) -> (out: (
    Vec<Fr>,
    Fr,
))
    requires
        1 <= degree < usize::MAX,
    ensures
        (values(out.0@), out.1@, final(chan)@) == verify_rounds(
            y@,
            nv as int,
            degree as int,
            old(chan)@,
        ),
        out.0.len() == nv,
        final(chan).same_oracle(old(chan)),
{
    let base = init_base(degree);
    let mut point: Vec<Fr> = Vec::new();
    let mut claim = y;
    let ghost whole = verify_rounds(y@, nv as int, degree as int, chan@);
    assert(whole.0 =~= values(point@) + whole.0);
    for k in 0..nv
        invariant
            1 <= degree < usize::MAX,
            base.len() == degree + 1,
            forall|i: int|
                0 <= i < base.len() ==> (#[trigger] base[i])@ == inverse_of(
                    node_product(degree as int, i),
                ),
            point.len() == k,
            chan.same_oracle(old(chan)),
            ({
                let (p, last, end) = verify_rounds(claim@, nv - k, degree as int, chan@);
                whole == (values(point@) + p, last, end)
            }),
    {
        let ghost rest = verify_rounds(claim@, nv - k, degree as int, chan@);
        let ghost seen = values(point@);
        let sums = chan.read_fs(degree + 1);
        chan.require(sums[0] + sums[1] == claim);
        let x = chan.challenge();
        point.push(x);
        match uni_extrapolate(&base, &sums, x) {
            Some(v) => {
                chan.require(true);
                claim = v;
            },
            None => {
                chan.require(false);
                claim = Fr::zero();
            },
        }
        proof {
            let next = verify_rounds(claim@, nv - k - 1, degree as int, chan@);
            assert(rest == (seq![x@] + next.0, next.1, next.2));
            assert(values(point@) =~= seen.push(x@));
            assert(seen + (seq![x@] + next.0) =~= values(point@) + next.0);
        }
    }
    assert(values(point@) + Seq::<int>::empty() =~= values(point@));
    (point, claim)
}

} // verus!
