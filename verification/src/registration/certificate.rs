//! The certificate: what it sends, and how it is checked.
use vstd::prelude::*;
use vstd::arithmetic::power::*;
use vstd::arithmetic::power2::*;
use crate::channel::{State, challenge, challenges, read_fs, require};
use crate::circuit::CircuitView;
use crate::field::{cong, invertible, tables, values};
use crate::kzg::{VerParams, batch_openable};
use crate::poly::{MlPoly, min, mle, ones_prefix};
use crate::preprocess::KeyView;
use crate::prover::fresh;
use crate::registration::args::{
    filled_to, fraction_sum, layer_draws, send_eq_sum, send_fractions, verify_eq_sum,
    verify_fractions,
};
use crate::registration::columns::encoding_ready;
use crate::registration::encode::{EncodingView, shaped};
use crate::registration::family::NUM_FAMILIES;
use crate::registration::relation::{
    Block, BlockView, CheckView, EqualityView, Lin, LinView, NUM_CHALLENGES, Tab, equalities_of,
    lin_covered, lin_value, place, zero_checks_of,
};
use crate::registration::wellformed::{block_wf, lin_wf, lins_wf, tab_wf, tabs_wf};
use crate::registration::witness::{
    NUM_COUNTERS, ProfileView, ProgramCommits, ProgramWitness, circuit_profile, log_srs_of,
    profile_fits, tab_log, tab_ok, witness_of,
};
use crate::sparse::{
    Acc, SparsePolys, acc_push, circuit_fits, identity_at, prefix_group, send_batch, suffix_group,
    suffix_lens,
};
use crate::sparse_verifier::{VerAcc, ver_push, verify_batch};
use crate::speaker::{Sent, drawn, send_fs, sent};
use crate::sumcheck::log2_ceil;
use crate::sums::sum_to;

verus! {

/// The values of a vector on the first `len` places.
pub open spec fn column_of(f: spec_fn(Tab) -> Seq<int>, t: Tab, len: int) -> Seq<int> {
    if t.committed() {
        filled_to(f(t), len, 0)
    } else {
        public_column(t, len)
    }
}

/// The values of a public vector on the first `len` places: ones, the places themselves, or
/// ones from one place up to another.
pub open spec fn public_column(t: Tab, len: int) -> Seq<int> {
    match t {
        Tab::Identity => Seq::new(len as nat, |i: int| i),
        Tab::Ind(lo, hi) => Seq::new(
            len as nat,
            |i: int| if lo <= i < hi {
                1int
            } else {
                0
            },
        ),
        _ => Seq::new(len as nat, |i: int| 1int),
    }
}

/// The values of some vectors on the first `len` places.
pub open spec fn columns_of(f: spec_fn(Tab) -> Seq<int>, tabs: Seq<Tab>, len: int) -> Seq<
    Seq<int>,
> {
    tabs.map_values(|t: Tab| column_of(f, t, len))
}

/// The value of a public vector at a point.
pub open spec fn public_at(t: Tab, p: Seq<int>) -> int {
    let top = pow2(p.len()) as int;
    match t {
        Tab::One => 1,
        Tab::Identity => identity_at(p),
        Tab::Ind(lo, hi) => ones_prefix(p, min(hi as int, top)) - ones_prefix(
            p,
            min(lo as int, top),
        ),
        _ => 0,
    }
}

/// The parts of a denominator joined by the powers of `beta`.
pub open spec fn fingerprint(comps: Seq<LinView>, f: spec_fn(Tab) -> int, beta: int) -> int {
    sum_to(comps.len() as int, |i: int| pow(beta, i as nat) * lin_value(comps[i], f))
}

/// The vectors of the terms from `k` on that a list does not hold yet, added to it.
pub open spec fn with_terms(tabs: Seq<Tab>, terms: Seq<(int, Tab)>, k: int) -> Seq<Tab>
    decreases terms.len() - k,
{
    if k >= terms.len() {
        tabs
    } else if tabs.contains(terms[k].1) {
        with_terms(tabs, terms, k + 1)
    } else {
        with_terms(tabs.push(terms[k].1), terms, k + 1)
    }
}

/// The vectors of the expressions from `k` on, added to a list.
pub open spec fn with_lins(tabs: Seq<Tab>, ls: Seq<LinView>, k: int) -> Seq<Tab>
    decreases ls.len() - k,
{
    if k >= ls.len() {
        tabs
    } else {
        with_lins(with_terms(tabs, ls[k].terms, 0), ls, k + 1)
    }
}

/// The vectors that a sum of fractions reads, in the order in which they come.
pub open spec fn tabs_of(b: BlockView) -> Seq<Tab> {
    with_lins(with_terms(Seq::empty(), b.num.terms, 0), b.comps, 0)
}

/// What a list holds is kept, and what is added is well formed.
proof fn lemma_with_terms(p: ProfileView, log: int, tabs: Seq<Tab>, l: LinView, k: int)
    requires
        tabs_wf(p, log, tabs),
        lin_wf(p, log, l),
        0 <= k <= l.terms.len(),
        forall|i: int| 0 <= i < k ==> tabs.contains((#[trigger] l.terms[i]).1),
    ensures
        tabs_wf(p, log, with_terms(tabs, l.terms, k)),
        forall|t: Tab| tabs.contains(t) ==> #[trigger] with_terms(tabs, l.terms, k).contains(t),
        lin_covered(l, with_terms(tabs, l.terms, k)),
    decreases l.terms.len() - k,
{
    if k < l.terms.len() {
        let t = l.terms[k].1;
        if tabs.contains(t) {
            lemma_with_terms(p, log, tabs, l, k + 1);
        } else {
            let next = tabs.push(t);
            assert(tab_wf(p, log, t));
            assert(tabs_wf(p, log, next));
            assert forall|u: Tab| tabs.contains(u) implies next.contains(u) by {
                let j = choose|j: int| 0 <= j < tabs.len() && tabs[j] == u;
                assert(next[j] == u);
            }
            assert(next[tabs.len() as int] == t);
            assert forall|i: int| 0 <= i < k + 1 implies next.contains(
                (#[trigger] l.terms[i]).1,
            ) by {
                if i < k {
                    assert(tabs.contains(l.terms[i].1));
                }
            }
            lemma_with_terms(p, log, next, l, k + 1);
        }
    }
}

proof fn lemma_with_lins(p: ProfileView, log: int, tabs: Seq<Tab>, ls: Seq<LinView>, k: int)
    requires
        tabs_wf(p, log, tabs),
        lins_wf(p, log, ls),
        0 <= k <= ls.len(),
        forall|i: int| 0 <= i < k ==> lin_covered(#[trigger] ls[i], tabs),
    ensures
        tabs_wf(p, log, with_lins(tabs, ls, k)),
        forall|t: Tab| tabs.contains(t) ==> #[trigger] with_lins(tabs, ls, k).contains(t),
        forall|i: int| 0 <= i < ls.len() ==> lin_covered(#[trigger] ls[i], with_lins(tabs, ls, k)),
    decreases ls.len() - k,
{
    if k < ls.len() {
        assert(lin_wf(p, log, ls[k]));
        lemma_with_terms(p, log, tabs, ls[k], 0);
        let next = with_terms(tabs, ls[k].terms, 0);
        assert forall|i: int| 0 <= i < k + 1 implies lin_covered(#[trigger] ls[i], next) by {
            if i < k {
                assert(lin_covered(ls[i], tabs));
                assert forall|j: int| 0 <= j < ls[i].terms.len() implies next.contains(
                    (#[trigger] ls[i].terms[j]).1,
                ) by {
                    assert(tabs.contains(ls[i].terms[j].1));
                }
            }
        }
        lemma_with_lins(p, log, next, ls, k + 1);
    }
}

/// The vectors that a well-formed sum reads are those of its expressions.
pub proof fn lemma_tabs_of(p: ProfileView, b: BlockView)
    requires
        block_wf(p, b),
    ensures
        tabs_wf(p, b.log_len, tabs_of(b)),
        lin_covered(b.num, tabs_of(b)),
        forall|i: int| 0 <= i < b.comps.len() ==> lin_covered(#[trigger] b.comps[i], tabs_of(b)),
{
    let none = Seq::<Tab>::empty();
    lemma_with_terms(p, b.log_len, none, b.num, 0);
    let first = with_terms(none, b.num.terms, 0);
    lemma_with_lins(p, b.log_len, first, b.comps, 0);
    assert forall|j: int| 0 <= j < b.num.terms.len() implies tabs_of(b).contains(
        (#[trigger] b.num.terms[j]).1,
    ) by {
        assert(first.contains(b.num.terms[j].1));
    }
}

fn contains(tabs: &Vec<Tab>, t: Tab) -> (out: bool)
    ensures
        out == tabs@.contains(t),
{
    for k in 0..tabs.len()
        invariant
            forall|j: int| 0 <= j < k ==> (#[trigger] tabs[j]) != t,
    {
        if tabs[k] == t {
            assert(tabs@[k as int] == t);
            return true;
        }
    }
    false
}

fn add_terms(tabs: &mut Vec<Tab>, l: &Lin)
    ensures
        final(tabs)@ == with_terms(old(tabs)@, l@.terms, 0),
{
    let ghost terms = l@.terms;
    let ghost goal = with_terms(tabs@, terms, 0);
    for k in 0..l.terms.len()
        invariant
            terms == l@.terms,
            goal == with_terms(tabs@, terms, k as int),
    {
        let t = l.terms[k].1;
        assert(terms[k as int].1 == t);
        if !contains(tabs, t) {
            let ghost before = tabs@;
            tabs.push(t);
            assert(tabs@ == before.push(t));
        }
    }
}

/// The vectors that a sum of fractions reads, in the order in which they come.
pub fn block_tabs(block: &Block) -> (out: Vec<Tab>)
    ensures
        out@ == tabs_of(block@),
{
    let mut tabs: Vec<Tab> = Vec::new();
    let ghost comps = block@.comps;
    assert(tabs@ =~= Seq::<Tab>::empty());
    add_terms(&mut tabs, &block.num);
    let ghost goal = with_lins(tabs@, comps, 0);
    for k in 0..block.comps.len()
        invariant
            comps == block@.comps,
            goal == with_lins(tabs@, comps, k as int),
    {
        assert(comps[k as int] == block.comps[k as int]@);
        add_terms(&mut tabs, &block.comps[k]);
    }
    tabs
}

/// What was sent so far, what has to be opened, and whether all went well.
pub ghost struct ProofState {
    pub s: Sent,
    pub acc: Acc,
    pub ok: bool,
}

/// The openings of the first `n` vectors of a list that are committed to, at one
/// point.
pub open spec fn opened_at(
    acc: Acc,
    f: spec_fn(Tab) -> Seq<int>,
    tabs: Seq<Tab>,
    p: Seq<int>,
    n: int,
) -> Acc
    decreases n,
{
    if n <= 0 {
        acc
    } else {
        let before = opened_at(acc, f, tabs, p, n - 1);
        if tabs[n - 1].committed() {
            acc_push(before, f(tabs[n - 1]), p)
        } else {
            before
        }
    }
}

/// The values at a point of the first `n` vectors of a list that are committed to.
pub open spec fn committed_values(
    f: spec_fn(Tab) -> Seq<int>,
    tabs: Seq<Tab>,
    p: Seq<int>,
    n: int,
) -> Seq<int>
    decreases n,
{
    if n <= 0 {
        Seq::empty()
    } else {
        let before = committed_values(f, tabs, p, n - 1);
        if tabs[n - 1].committed() {
            before.push(mle(f(tabs[n - 1]), p))
        } else {
            before
        }
    }
}

/// Proves a zero check.
#[verifier::opaque]
pub open spec fn prove_check(
    f: spec_fn(Tab) -> Seq<int>,
    x: CheckView,
    chals: Seq<int>,
    st: ProofState,
) -> ProofState {
    let nv = x.log_len;
    let eq_point = st.s.ch.take(nv);
    let (s, point) = send_eq_sum(
        drawn(st.s, nv),
        eq_point,
        columns_of(f, x.tables, pow2(nv as nat) as int),
        x.degree,
        x.gate,
        chals,
    );
    ProofState { s, acc: opened_at(st.acc, f, x.tables, point, x.tables.len() as int), ..st }
}

/// Proves the first `n` zero checks.
pub open spec fn prove_checks(
    f: spec_fn(Tab) -> Seq<int>,
    xs: Seq<CheckView>,
    chals: Seq<int>,
    st: ProofState,
    n: int,
) -> ProofState
    decreases n,
{
    if n <= 0 {
        st
    } else {
        prove_check(f, xs[n - 1], chals, prove_checks(f, xs, chals, st, n - 1))
    }
}

/// The number of challenges of the first `n` zero checks.
pub open spec fn checks_draws(xs: Seq<CheckView>, n: int) -> int
    decreases n,
{
    if n <= 0 {
        0
    } else {
        checks_draws(xs, n - 1) + 2 * xs[n - 1].log_len
    }
}

/// The numerators of a sum of fractions.
pub open spec fn numerators(f: spec_fn(Tab) -> Seq<int>, b: BlockView) -> Seq<int> {
    let len = pow2(b.log_len as nat);
    Seq::new(len, |x: int| lin_value(b.num, |t: Tab| column_of(f, t, len as int)[x]))
}

/// The denominators of a sum of fractions.
pub open spec fn denominators(
    f: spec_fn(Tab) -> Seq<int>,
    b: BlockView,
    alpha: int,
    beta: int,
) -> Seq<int> {
    let len = pow2(b.log_len as nat);
    Seq::new(
        len,
        |x: int| alpha + fingerprint(b.comps, |t: Tab| column_of(f, t, len as int)[x], beta),
    )
}

/// All the elements are invertible.
pub open spec fn all_units(v: Seq<int>) -> bool {
    forall|i: int| 0 <= i < v.len() ==> invertible(#[trigger] v[i])
}

/// Proves a sum of fractions: gives the state and the sum.
#[verifier::opaque]
pub open spec fn prove_block(
    f: spec_fn(Tab) -> Seq<int>,
    b: BlockView,
    alpha: int,
    beta: int,
    st: ProofState,
) -> (ProofState, int) {
    let num = numerators(f, b);
    let den = denominators(f, b, alpha, beta);
    let tabs = tabs_of(b);
    let (s, point) = send_fractions(num, den, b.log_len, st.s);
    (
        ProofState {
            s: send_fs(s, committed_values(f, tabs, point, tabs.len() as int)),
            acc: opened_at(st.acc, f, tabs, point, tabs.len() as int),
            ok: st.ok && all_units(den),
        },
        fraction_sum(num, den),
    )
}

/// Proves the first `n` sums of fractions: gives the state and the total.
pub open spec fn prove_blocks(
    f: spec_fn(Tab) -> Seq<int>,
    bs: Seq<BlockView>,
    alpha: int,
    beta: int,
    st: ProofState,
    n: int,
) -> (ProofState, int)
    decreases n,
{
    if n <= 0 {
        (st, 0)
    } else {
        let (before, sum) = prove_blocks(f, bs, alpha, beta, st, n - 1);
        let (next, here) = prove_block(f, bs[n - 1], alpha, beta, before);
        (next, sum + here)
    }
}

/// The number of challenges of the first `n` sums of fractions.
pub open spec fn blocks_draws(bs: Seq<BlockView>, n: int) -> int
    decreases n,
{
    if n <= 0 {
        0
    } else {
        blocks_draws(bs, n - 1) + layer_draws(bs[n - 1].log_len, 0)
    }
}

/// Proves an equality.
#[verifier::opaque]
pub open spec fn prove_equality(
    f: spec_fn(Tab) -> Seq<int>,
    e: EqualityView,
    st: ProofState,
) -> ProofState {
    let alpha = st.s.ch[0];
    let beta = st.s.ch[1];
    let st1 = ProofState { s: drawn(st.s, 2), ..st };
    let (st2, left) = prove_blocks(f, e.left, alpha, beta, st1, e.left.len() as int);
    let (st3, right) = prove_blocks(f, e.right, alpha, beta, st2, e.right.len() as int);
    ProofState { ok: st3.ok && cong(left, right), ..st3 }
}

/// The number of challenges of an equality.
pub open spec fn equality_draws(e: EqualityView) -> int {
    2 + blocks_draws(e.left, e.left.len() as int) + blocks_draws(e.right, e.right.len() as int)
}

/// Proves the first `n` equalities.
pub open spec fn prove_equalities(
    f: spec_fn(Tab) -> Seq<int>,
    es: Seq<EqualityView>,
    st: ProofState,
    n: int,
) -> ProofState
    decreases n,
{
    if n <= 0 {
        st
    } else {
        prove_equality(f, es[n - 1], prove_equalities(f, es, st, n - 1))
    }
}

/// The number of challenges of the first `n` equalities.
pub open spec fn equalities_draws(es: Seq<EqualityView>, n: int) -> int
    decreases n,
{
    if n <= 0 {
        0
    } else {
        equalities_draws(es, n - 1) + equality_draws(es[n - 1])
    }
}

/// A vector has a value at a vertex.
pub ghost struct Boundary {
    pub tab: Tab,
    pub point: Seq<int>,
    pub value: int,
}

/// Where a counter starts.
pub open spec fn counter_start(p: ProfileView, x: int) -> int {
    if x == 0 {
        p.weight_len + p.input_len
    } else if x == 1 {
        p.aux_start
    } else {
        0
    }
}

/// Where a counter ends.
pub open spec fn counter_end(p: ProfileView, x: int) -> int {
    if x == 0 {
        p.aux_start
    } else if x == 1 {
        p.z_len
    } else if x == 2 {
        p.cons_line
    } else {
        p.lu_line
    }
}

/// The values of the counters, and of the starts in the families, at the first and
/// the last vertex, in order.
pub open spec fn boundary_of(p: ProfileView, k: int) -> Boundary {
    let nv = log2_ceil(p.instr_count + 1);
    let point = if k % 2 == 0 {
        Seq::new(nv, |i: int| 0int)
    } else {
        Seq::new(nv, |i: int| 1int)
    };
    let i = k / 2;
    if i < NUM_COUNTERS {
        Boundary {
            tab: Tab::Ctr(i as usize),
            point,
            value: if k % 2 == 0 {
                counter_start(p, i)
            } else {
                counter_end(p, i)
            },
        }
    } else {
        Boundary {
            tab: Tab::Base((i - NUM_COUNTERS) as usize),
            point,
            value: if k % 2 == 0 {
                0
            } else {
                p.family_lens[i - NUM_COUNTERS]
            },
        }
    }
}

/// The number of values at the first and the last vertex.
pub open spec fn num_boundaries() -> int {
    2 * (NUM_COUNTERS + NUM_FAMILIES)
}

/// The openings of the first `n` values at vertices.
pub open spec fn opened_boundaries(
    acc: Acc,
    f: spec_fn(Tab) -> Seq<int>,
    p: ProfileView,
    n: int,
) -> Acc
    decreases n,
{
    if n <= 0 {
        acc
    } else {
        let b = boundary_of(p, n - 1);
        acc_push(opened_boundaries(acc, f, p, n - 1), f(b.tab), b.point)
    }
}

/// The state after all the rules were proved.
#[verifier::opaque]
pub open spec fn prove_rules(
    f: spec_fn(Tab) -> Seq<int>,
    p: ProfileView,
    ch: Seq<int>,
) -> ProofState {
    let m = NUM_CHALLENGES as int;
    let st = ProofState {
        s: drawn(fresh(ch), m),
        acc: Acc { polys: Seq::empty(), points: Seq::empty() },
        ok: true,
    };
    let xs = zero_checks_of(p);
    let es = equalities_of(p);
    let st1 = prove_checks(f, xs, ch.take(m), st, xs.len() as int);
    let st2 = prove_equalities(f, es, st1, es.len() as int);
    ProofState { acc: opened_boundaries(st2.acc, f, p, num_boundaries()), ..st2 }
}

/// The number of challenges of all the rules.
pub open spec fn rules_draws(p: ProfileView) -> int {
    let xs = zero_checks_of(p);
    let es = equalities_of(p);
    NUM_CHALLENGES + checks_draws(xs, xs.len() as int) + equalities_draws(es, es.len() as int)
}

/// The parameters cut to the greatest number of variables that a registration needs.
pub open spec fn trimmed(srs: Seq<int>, p: ProfileView) -> Seq<int> {
    srs.take(min(pow2(log_srs_of(p) as nat) as int, srs.len() as int))
}

/// What a registration sends.
pub open spec fn certificate_of(
    srs: Seq<int>,
    f: spec_fn(Tab) -> Seq<int>,
    p: ProfileView,
    ch: Seq<int>,
) -> Sent {
    let st = prove_rules(f, p, ch);
    send_batch(trimmed(srs, p), st.acc, st.s)
}

/// The challenges are enough for a certificate.
pub open spec fn certifiable(
    srs: Seq<int>,
    f: spec_fn(Tab) -> Seq<int>,
    p: ProfileView,
    ch: Seq<int>,
) -> bool {
    let st = prove_rules(f, p, ch);
    &&& ch.len() >= rules_draws(p)
    &&& st.ok ==> batch_openable(trimmed(srs, p), st.acc.polys, st.acc.points, st.s.ch)
}

/// What is still to be read, what has to be opened, and whether all went well.
pub ghost struct CheckState {
    pub st: State,
    pub acc: VerAcc,
}

/// What becomes of the values of the first `n` vectors of a list at a point: those
/// of vectors that are committed to are claims, the others are compared.
pub open spec fn settled(
    v: CheckState,
    g: spec_fn(Tab) -> Seq<int>,
    tabs: Seq<Tab>,
    p: Seq<int>,
    vals: Seq<int>,
    n: int,
) -> CheckState
    decreases n,
{
    if n <= 0 {
        v
    } else {
        let before = settled(v, g, tabs, p, vals, n - 1);
        let t = tabs[n - 1];
        if t.committed() {
            CheckState { acc: ver_push(before.acc, g(t), p, vals[n - 1]), ..before }
        } else {
            CheckState {
                st: require(before.st, cong(vals[n - 1], public_at(t, p))),
                ..before
            }
        }
    }
}

/// Checks a zero check.
#[verifier::opaque]
pub open spec fn verify_check(
    g: spec_fn(Tab) -> Seq<int>,
    x: CheckView,
    chals: Seq<int>,
    v: CheckState,
) -> CheckState {
    let (st1, eq_point) = challenges(v.st, x.log_len);
    let (st2, point, vals) = verify_eq_sum(
        st1,
        eq_point,
        0,
        x.degree,
        x.tables.len() as int,
        x.gate,
        chals,
    );
    settled(CheckState { st: st2, ..v }, g, x.tables, point, vals, x.tables.len() as int)
}

/// Checks the first `n` zero checks.
pub open spec fn verify_checks(
    g: spec_fn(Tab) -> Seq<int>,
    xs: Seq<CheckView>,
    chals: Seq<int>,
    v: CheckState,
    n: int,
) -> CheckState
    decreases n,
{
    if n <= 0 {
        v
    } else {
        verify_check(g, xs[n - 1], chals, verify_checks(g, xs, chals, v, n - 1))
    }
}

/// How many of the first `n` vectors of a list are committed to.
pub open spec fn num_committed(tabs: Seq<Tab>, n: int) -> int
    decreases n,
{
    if n <= 0 {
        0
    } else {
        num_committed(tabs, n - 1) + if tabs[n - 1].committed() {
            1int
        } else {
            0
        }
    }
}

/// The value of each vector of a list: for one that is committed to the next of
/// those that were read, for the others their value at the point.
pub open spec fn read_values(tabs: Seq<Tab>, p: Seq<int>, opened: Seq<int>) -> Seq<int> {
    Seq::new(
        tabs.len(),
        |k: int| if tabs[k].committed() {
            opened[num_committed(tabs, k)]
        } else {
            public_at(tabs[k], p)
        },
    )
}

/// The claims for the first `n` vectors of a list that are committed to, at one
/// point.
pub open spec fn claimed_at(
    acc: VerAcc,
    g: spec_fn(Tab) -> Seq<int>,
    tabs: Seq<Tab>,
    p: Seq<int>,
    vals: Seq<int>,
    n: int,
) -> VerAcc
    decreases n,
{
    if n <= 0 {
        acc
    } else {
        let before = claimed_at(acc, g, tabs, p, vals, n - 1);
        if tabs[n - 1].committed() {
            ver_push(before, g(tabs[n - 1]), p, vals[n - 1])
        } else {
            before
        }
    }
}

/// Checks a sum of fractions: gives the state and the sum.
#[verifier::opaque]
pub open spec fn verify_block(
    g: spec_fn(Tab) -> Seq<int>,
    b: BlockView,
    alpha: int,
    beta: int,
    v: CheckState,
) -> (CheckState, int) {
    let tabs = tabs_of(b);
    let n = tabs.len() as int;
    let (st1, sum, c) = verify_fractions(b.log_len, v.st);
    let (st2, opened) = read_fs(st1, num_committed(tabs, n));
    let vals = read_values(tabs, c.point, opened);
    let look = |t: Tab| vals[place(tabs, t, 0)];
    let st3 = require(
        st2,
        cong(c.p, lin_value(b.num, look)) && cong(
            c.q,
            alpha + fingerprint(b.comps, look, beta),
        ),
    );
    (CheckState { st: st3, acc: claimed_at(v.acc, g, tabs, c.point, vals, n) }, sum)
}

/// Checks the first `n` sums of fractions: gives the state and the total.
pub open spec fn verify_blocks(
    g: spec_fn(Tab) -> Seq<int>,
    bs: Seq<BlockView>,
    alpha: int,
    beta: int,
    v: CheckState,
    n: int,
) -> (CheckState, int)
    decreases n,
{
    if n <= 0 {
        (v, 0)
    } else {
        let (before, sum) = verify_blocks(g, bs, alpha, beta, v, n - 1);
        let (next, here) = verify_block(g, bs[n - 1], alpha, beta, before);
        (next, sum + here)
    }
}

/// Checks an equality.
#[verifier::opaque]
pub open spec fn verify_equality(
    g: spec_fn(Tab) -> Seq<int>,
    e: EqualityView,
    v: CheckState,
) -> CheckState {
    let (st1, alpha) = challenge(v.st);
    let (st2, beta) = challenge(st1);
    let (v1, left) = verify_blocks(
        g,
        e.left,
        alpha,
        beta,
        CheckState { st: st2, ..v },
        e.left.len() as int,
    );
    let (v2, right) = verify_blocks(g, e.right, alpha, beta, v1, e.right.len() as int);
    CheckState { st: require(v2.st, cong(left, right)), ..v2 }
}

/// Checks the first `n` equalities.
pub open spec fn verify_equalities(
    g: spec_fn(Tab) -> Seq<int>,
    es: Seq<EqualityView>,
    v: CheckState,
    n: int,
) -> CheckState
    decreases n,
{
    if n <= 0 {
        v
    } else {
        verify_equality(g, es[n - 1], verify_equalities(g, es, v, n - 1))
    }
}

/// The claims of the first `n` values at vertices.
pub open spec fn claimed_boundaries(
    acc: VerAcc,
    g: spec_fn(Tab) -> Seq<int>,
    p: ProfileView,
    n: int,
) -> VerAcc
    decreases n,
{
    if n <= 0 {
        acc
    } else {
        let b = boundary_of(p, n - 1);
        ver_push(claimed_boundaries(acc, g, p, n - 1), g(b.tab), b.point, b.value)
    }
}

/// The verifier's parameters cut to the greatest number of variables that a
/// registration needs.
pub open spec fn trimmed_ver(vp: VerParams, p: ProfileView) -> VerParams {
    VerParams { params: vp.params.take(min(log_srs_of(p), vp.params.len() as int)), ..vp }
}

/// The state after a certificate was checked.
#[verifier::opaque]
pub open spec fn verify_rules(
    vp: VerParams,
    g: spec_fn(Tab) -> Seq<int>,
    p: ProfileView,
    st: State,
) -> State {
    let (st1, chals) = challenges(st, NUM_CHALLENGES as int);
    let xs = zero_checks_of(p);
    let es = equalities_of(p);
    let v = CheckState {
        st: st1,
        acc: VerAcc { commits: Seq::empty(), points: Seq::empty(), values: Seq::empty() },
    };
    let v1 = verify_checks(g, xs, chals, v, xs.len() as int);
    let v2 = verify_equalities(g, es, v1, es.len() as int);
    verify_batch(
        trimmed_ver(vp, p),
        claimed_boundaries(v2.acc, g, p, num_boundaries()),
        v2.st,
    )
}

/// The vectors of a certificate: those of the program, and those of the circuit.
pub open spec fn vector_of(w: ProgramWitness, polys: SparsePolys, tp: MlPoly, t: Tab) -> Seq<int> {
    if !t.committed() || !tab_ok(t) {
        Seq::empty()
    } else {
        match t {
            Tab::Row => polys.supergroups[0].row@,
            Tab::Col => polys.supergroups[0].col@,
            Tab::Val => polys.supergroups[0].val@,
            Tab::Pow => polys.supergroups[0].pow@,
            Tab::BRow => polys.b_pre.row@,
            Tab::BCol => polys.b_pre.col@,
            Tab::BVal => polys.b_pre.val@,
            Tab::BPow => polys.b_pre.pow@,
            Tab::Tp => tp@,
            _ => w.tab(t)@,
        }
    }
}

/// The vectors of a certificate for a program and its circuit.
pub open spec fn circuit_vectors(e: EncodingView, c: CircuitView) -> spec_fn(Tab) -> Seq<int> {
    let p = circuit_profile(e, c);
    |t: Tab|
        if !t.committed() || !tab_ok(t) {
            Seq::empty()
        } else {
            witness_of(e, c, p.x_len, p.log_range, t)
        }
}

/// The vectors are no longer than the rules take them to be.
pub open spec fn vectors_fit(f: spec_fn(Tab) -> Seq<int>, p: ProfileView) -> bool {
    &&& pow2(p.log_range as nat) < usize::MAX
    &&& forall|t: Tab|
        t.committed() && tab_ok(t) ==> 0 < (#[trigger] f(t)).len() <= pow2(tab_log(p, t) as nat)
}

/// The commitments to the vectors of a certificate.
pub open spec fn commit_at(k: KeyView, c: ProgramCommits, t: Tab) -> Seq<int> {
    match t {
        Tab::Row => k.sup.row,
        Tab::Col => k.sup.col,
        Tab::Val => k.sup.val,
        Tab::Pow => k.sup.pow,
        Tab::BRow => k.b_pre.row,
        Tab::BCol => k.b_pre.col,
        Tab::BVal => k.b_pre.val,
        Tab::BPow => k.b_pre.pow,
        Tab::Tp => k.tp,
        _ => c.tab(t)@,
    }
}

/// The entries that a key has commitments to are those of a circuit.
pub open spec fn key_counts(k: KeyView, c: CircuitView) -> bool {
    &&& k.lens == suffix_lens(c)
    &&& k.entry_len == suffix_group(c).row.len()
    &&& k.b_pre_len == prefix_group(c).row.len()
    &&& k.sup.log_row == suffix_group(c).log_row
}

/// The program and its circuit can be registered: their sizes fit in memory, and
/// something is looked up.
pub open spec fn registrable(e: EncodingView, c: CircuitView) -> bool {
    &&& encoding_ready(e)
    &&& shaped(e, c)
    &&& circuit_fits(c, 1)
    &&& e.lu_line >= 1
}

/// A profile fits the commitments of a key.
pub open spec fn profile_matches(p: ProfileView, k: KeyView) -> bool {
    &&& profile_fits(p)
    &&& p.weight_len == k.weight_len
    &&& p.matrix_lens == k.lens
    &&& p.entry_len == k.entry_len
    &&& p.b_pre_len == k.b_pre_len
}

} // verus!
