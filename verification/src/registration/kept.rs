//! The certificate for a compiled program is accepted.
use vstd::prelude::*;
use vstd::arithmetic::power2::*;
use crate::channel::State;
use crate::circuit::CircuitView;
use crate::field::cong;
use crate::kzg::{commit_of, srs_of, ver_params_of};
use crate::poly::{law_vertex, mle, vertex};
use crate::sparse::{lemma_prefix_group, lemma_suffix_group, lemma_table_size};
use crate::speaker::{Sent, drawn};
use crate::sumcheck::{lemma_log2_ceil, log2_ceil};
use crate::sums::{lemma_pow2_mono, lemma_pow2_step, lemma_sum_eq, lemma_sum_swap, sum_to};
use super::accepted::{
    boundaries_hold, check_holds, law_certificate, lemma_commit_trim, lemma_tab_log, rules_kept,
    rules_off,
};
use super::args::{layer_draws, send_fractions, send_layer, send_layers};
use super::cells::lemma_instr_cells;
use super::certificate::{
    ProofState, all_units, blocks_draws, boundary_of, certifiable, certificate_of, checks_draws,
    circuit_vectors, column_of, counter_end, counter_start, denominators, equalities_draws,
    num_boundaries, prove_block, prove_blocks, prove_check, prove_checks, prove_equalities,
    prove_equality, prove_rules, registrable, rules_draws, trimmed, vectors_fit, verify_rules,
};
use super::compiled::law_compiled;
use super::compiled_laws::{
    Compiled, instr_total, lemma_check_inputs, lemma_check_plain_powers, lemma_check_prefix_powers,
    lemma_eq_outputs, lemma_eq_products, lemma_eq_types, lemma_matrix_total, lemma_three,
    suffix_row,
};
use super::encode::{EncodingView, violation};
use super::equal_laws::{
    lemma_eq_counters, lemma_eq_entries, lemma_eq_family, lemma_eq_lookup_entries, lemma_eq_lookups,
    lemma_eq_prefix_entries, lemma_eq_ranges, lemma_eq_rows,
};
use super::expansion_laws::{
    family_total, lemma_family_block, lemma_masked_block, lemma_prefix_block, lemma_second_matrix,
    lin_weight, whole_row,
};
use super::family::NUM_FAMILIES;
use super::family_laws::{lemma_check_positions, lemma_check_powers, lemma_check_sides, lemma_lens};
use super::instr_families::{families_total, lemma_instr_families, linear_total};
use super::registrar::{lemma_circuit_profile, slacks_fit};
use super::relation::{
    BlockView, CheckView, EqualityView, NUM_CHALLENGES, Tab, eq_expansion, eq_family, equalities_of,
    zero_checks_of,
};
use super::slacks::law_slacks;
use super::tallies::{blocks_sum, lemma_fraction_block, one_over, sides_meet};
use super::wellformed::{check_wf, lemma_checks_wf};
use super::witness::{
    CTR_AUX, CTR_CR, CTR_LR, CTR_OUT, NUM_COUNTERS, ProfileView, buildable, circuit_profile,
    lemma_witness_len, log_srs_of, of_circuit, of_program, profile_fits, tab_log, tab_ok, wide,
};
use super::zero_laws::{
    lemma_check_blocks, lemma_check_increments, lemma_check_masks, lemma_check_prefix_mask,
    lemma_check_prefix_slack, lemma_check_read_slack, lemma_check_selectors, lemma_check_sizes,
};

verus! {

/// The blocks of the families, instruction by instruction.
proof fn lemma_family_blocks(w: Compiled, h: spec_fn(Seq<int>) -> int, n: int)
    requires
        w.ready(),
        0 <= n <= NUM_FAMILIES,
    ensures
        ({
            let e = w.encoding();
            let c = w.circuit();
            let x = eq_expansion(circuit_profile(e, c));
            blocks_sum(circuit_vectors(e, c), x.right, h, n) == sum_to(
                n,
                |k: int| sum_to(w.instrs.len() as int, |i: int| family_total(e, h, k, i)),
            )
        }),
    decreases n,
{
    if n > 0 {
        lemma_family_blocks(w, h, n - 1);
        lemma_family_block(w, h, n - 1);
    }
}

/// The rows of products and convolutions are the entries of the families.
#[verifier::rlimit(40)]
#[verifier::spinoff_prover]
pub proof fn lemma_eq_expansion(w: Compiled, h: spec_fn(Seq<int>) -> int)
    requires
        w.ready(),
        slacks_fit(w.encoding(), w.circuit()),
    ensures
        sides_meet(
            circuit_vectors(w.encoding(), w.circuit()),
            eq_expansion(circuit_profile(w.encoding(), w.circuit())),
            h,
        ),
{
    let e = w.encoding();
    let c = w.circuit();
    let f = circuit_vectors(e, c);
    let x = eq_expansion(circuit_profile(e, c));
    let wl = w.weights.len() as int;
    let q = w.instrs.len() as int;
    lemma_masked_block(e, c, h, 0);
    lemma_masked_block(e, c, h, 1);
    lemma_masked_block(e, c, h, 2);
    lemma_prefix_block(w, h);
    lemma_matrix_total(w, c.a, false, lin_weight(e, h, 0));
    lemma_second_matrix(w, lin_weight(e, h, 1));
    lemma_matrix_total(w, c.c, false, lin_weight(e, h, 2));
    let ga = suffix_row(c.a, wl, lin_weight(e, h, 0));
    let gb = whole_row(c.b, lin_weight(e, h, 1));
    let gc = suffix_row(c.c, wl, lin_weight(e, h, 2));
    let a = |i: int| instr_total(w, ga, false, i);
    let b = |i: int| instr_total(w, gb, false, i);
    let d = |i: int| instr_total(w, gc, false, i);
    let all = |i: int| linear_total(w, h, i);
    lemma_three(q, all, a, b, d);
    let fams = |i: int| families_total(e, h, i);
    assert forall|i: int| 0 <= i < q implies #[trigger] all(i) == fams(i) by {
        lemma_instr_families(w, h, i);
    }
    lemma_sum_eq(q, all, fams);
    lemma_family_blocks(w, h, NUM_FAMILIES as int);
    let t = |k: int, i: int| family_total(e, h, k, i);
    let n = NUM_FAMILIES as int;
    lemma_sum_swap(n, q, t);
    let u = |k: int| sum_to(q, |i: int| t(k, i));
    let v = |k: int| sum_to(q, |i: int| family_total(e, h, k, i));
    assert forall|k: int| 0 <= k < n implies #[trigger] u(k) == v(k) by {
        lemma_sum_eq(q, |i: int| t(k, i), |i: int| family_total(e, h, k, i));
    }
    lemma_sum_eq(n, u, v);
    let y = |i: int| sum_to(n, |k: int| t(k, i));
    assert forall|i: int| 0 <= i < q implies #[trigger] y(i) == fams(i) by {
        lemma_sum_eq(n, |k: int| t(k, i), |k: int| family_total(e, h, k, i));
    }
    lemma_sum_eq(q, y, fams);
    reveal_with_fuel(blocks_sum, 5);
    assert(x.left.len() == 4);
    assert(x.right.len() == n);
    assert(sum_to(q, a) + sum_to(q, b) + sum_to(q, d) == sum_to(q, fams));
}

/// All the zero checks hold.
pub proof fn lemma_zero_checks(w: Compiled, chals: Seq<int>)
    requires
        w.ready(),
    ensures
        ({
            let p = circuit_profile(w.encoding(), w.circuit());
            let xs = zero_checks_of(p);
            forall|i: int|
                0 <= i < xs.len() ==> check_holds(
                    circuit_vectors(w.encoding(), w.circuit()),
                    #[trigger] xs[i],
                    chals,
                )
        }),
{
    let e = w.encoding();
    let c = w.circuit();
    let f = circuit_vectors(e, c);
    let xs = zero_checks_of(circuit_profile(e, c));
    reveal(zero_checks_of);
    lemma_check_selectors(e, c, chals);
    lemma_check_increments(e, c, chals);
    lemma_check_sizes(e, c, chals);
    lemma_check_read_slack(e, c, chals);
    lemma_check_prefix_slack(e, c, chals);
    lemma_check_inputs(w, chals);
    lemma_check_plain_powers(w, chals);
    lemma_check_prefix_powers(w, chals);
    lemma_check_masks(e, c, chals);
    lemma_check_prefix_mask(e, c, chals);
    lemma_check_blocks(e, c, chals);
    lemma_check_positions(e, c, chals);
    lemma_check_sides(e, c, chals);
    lemma_check_powers(e, c, chals);
    assert forall|i: int| 0 <= i < xs.len() implies check_holds(f, #[trigger] xs[i], chals) by {
        assert(i == 0 || i == 1 || i == 2 || i == 3 || i == 4 || i == 5 || i == 6 || i == 7 || i
            == 8 || i == 9 || i == 10 || i == 11 || i == 12 || i == 13);
    }
}

/// The two sides of all the equalities are equal, with any weight for the parts.
pub proof fn lemma_equalities(w: Compiled, h: spec_fn(Seq<int>) -> int, k: int)
    requires
        w.ready(),
        slacks_fit(w.encoding(), w.circuit()),
        0 <= k < equalities_of(circuit_profile(w.encoding(), w.circuit())).len(),
    ensures
        sides_meet(
            circuit_vectors(w.encoding(), w.circuit()),
            equalities_of(circuit_profile(w.encoding(), w.circuit()))[k],
            h,
        ),
{
    let e = w.encoding();
    let c = w.circuit();
    let p = circuit_profile(e, c);
    let es = equalities_of(p);
    reveal(equalities_of);
    if k == 0 {
        lemma_eq_counters(e, c, h);
    } else if k == 1 {
        lemma_eq_rows(e, c, h);
    } else if k == 2 {
        lemma_eq_lookups(e, c, h);
    } else if k == 3 {
        lemma_eq_entries(e, c, h);
    } else if k == 4 {
        lemma_eq_lookup_entries(e, c, h);
    } else if k == 5 {
        lemma_eq_prefix_entries(e, c, h);
    } else if k == 6 {
        lemma_eq_ranges(e, c, h);
    } else if k == 7 {
        lemma_eq_products(w, h);
    } else if k == 8 {
        lemma_eq_outputs(w, h);
    } else if k == 9 {
        lemma_eq_types(w, h);
    } else if k < 22 {
        assert(es[k] == eq_family(p, k - 10));
        lemma_eq_family(e, c, h, k - 10);
    } else {
        assert(es[k] == eq_expansion(p));
        lemma_eq_expansion(w, h);
    }
}

pub proof fn lemma_first_vertex(n: nat)
    ensures
        vertex(n, 0) == Seq::new(n, |i: int| 0int),
    decreases n,
{
    if n > 0 {
        lemma_first_vertex((n - 1) as nat);
    }
    assert(vertex(n, 0) =~= Seq::new(n, |i: int| 0int));
}

pub proof fn lemma_last_vertex(n: nat)
    ensures
        vertex(n, pow2(n) - 1) == Seq::new(n, |i: int| 1int),
    decreases n,
{
    if n > 0 {
        lemma_last_vertex((n - 1) as nat);
        lemma_pow2_step((n - 1) as nat);
    }
    assert(vertex(n, pow2(n) - 1) =~= Seq::new(n, |i: int| 1int));
}

/// The counters begin and end where they should.
#[verifier::rlimit(40)]
#[verifier::spinoff_prover]
proof fn lemma_boundaries_hold(e: EncodingView, c: CircuitView)
    requires
        registrable(e, c),
    ensures
        boundaries_hold(circuit_vectors(e, c), circuit_profile(e, c)),
{
    let f = circuit_vectors(e, c);
    let p = circuit_profile(e, c);
    let q = e.opcode.len() as int;
    let nv = log2_ceil(q + 1);
    let len = wide(q + 1);
    lemma_log2_ceil(q + 1);
    lemma_first_vertex(nv);
    lemma_last_vertex(nv);
    lemma_instr_cells(e, c, 0);
    lemma_instr_cells(e, c, len - 1);
    lemma_lens(e);
    assert forall|k: int| 0 <= k < num_boundaries() implies {
        let b = #[trigger] boundary_of(p, k);
        cong(b.value, mle(f(b.tab), b.point))
    } by {
        let b = boundary_of(p, k);
        let i = k / 2;
        let j = if k % 2 == 0 {
            0
        } else {
            len - 1
        };
        let t = b.tab;
        lemma_witness_len(e, c, p, t);
        assert(f(t).len() == len);
        law_vertex(f(t), nv, j);
        assert(b.point == vertex(nv, j));
        assert(column_of(f, t, len)[j] == f(t)[j]);
        if i < NUM_COUNTERS {
            assert(i == CTR_OUT || i == CTR_AUX || i == CTR_CR || i == CTR_LR);
            assert(b.value == f(t)[j]);
        } else {
            let y = (i - NUM_COUNTERS) as usize;
            assert(t == Tab::Base(y));
            assert(b.value == f(t)[j]);
        }
    }
}

/// The counters of a program advance by what each instruction takes, on all the places up
/// to the last one; they begin at the parameters and end at the totals of the profile.
pub proof fn law_counters(e: EncodingView, c: CircuitView, k: usize)
    requires
        buildable(e, c, circuit_profile(e, c)),
        k < NUM_COUNTERS,
    ensures
        ({
            let p = circuit_profile(e, c);
            let ctr = circuit_vectors(e, c)(Tab::Ctr(k));
            let dctr = circuit_vectors(e, c)(Tab::DCtr(k));
            let len = wide(e.opcode.len() as int + 1);
            &&& e.opcode.len() < len
            &&& ctr.len() == len
            &&& dctr.len() == len
            &&& ctr[0] == counter_start(p, k as int)
            &&& ctr[len - 1] == counter_end(p, k as int)
            &&& forall|i: int| 0 <= i < len - 1 ==> ctr[i + 1] == #[trigger] ctr[i] + dctr[i]
        }),
{
    let f = circuit_vectors(e, c);
    let p = circuit_profile(e, c);
    let q = e.opcode.len() as int;
    let len = wide(q + 1);
    let ctr = f(Tab::Ctr(k));
    let dctr = f(Tab::DCtr(k));
    lemma_log2_ceil(q + 1);
    lemma_witness_len(e, c, p, Tab::Ctr(k));
    lemma_witness_len(e, c, p, Tab::DCtr(k));
    assert(k == CTR_OUT || k == CTR_AUX || k == CTR_CR || k == CTR_LR);
    assert forall|i: int| 0 <= i < len implies #[trigger] ctr[i]
        == column_of(f, Tab::Ctr(k), len)[i] by {}
    assert forall|i: int| 0 <= i < len implies #[trigger] dctr[i]
        == column_of(f, Tab::DCtr(k), len)[i] by {}
    lemma_instr_cells(e, c, 0);
    lemma_instr_cells(e, c, len - 1);
    assert(ctr[0] == counter_start(p, k as int));
    assert(ctr[len - 1] == counter_end(p, k as int));
    assert forall|i: int| 0 <= i < len - 1 implies ctr[i + 1] == #[trigger] ctr[i] + dctr[i] by {
        lemma_instr_cells(e, c, i);
        lemma_instr_cells(e, c, i + 1);
        assert(ctr[i + 1] == column_of(f, Tab::Ctr(k), len)[i + 1]);
    }
}

/// The challenges that the layers of a sum of fractions draw, and how much is sent.
proof fn lemma_layers_sent(p: Seq<int>, q: Seq<int>, n: int, point: Seq<int>, s: Sent)
    requires
        s.ch.len() >= layer_draws(n, point.len() as int),
    ensures
        ({
            let end = send_layers(p, q, n, point, s).0;
            &&& end.ch == s.ch.skip(layer_draws(n, point.len() as int))
            &&& end.f.len() >= s.f.len()
            &&& end.f.len() >= s.f.len() + n - point.len()
        }),
    decreases n - point.len(),
{
    let k = point.len() as int;
    if k < n {
        lemma_layer_draws_some(n, k + 1);
        let (a, b) = super::args::level(p, q, n - k - 1);
        let (s1, next) = send_layer(a, b, point, s);
        reveal(send_layer);
        assert(next.len() == k + 1);
        assert(s1.ch =~= s.ch.skip(2 + k));
        assert(s1.f.len() >= s.f.len() + 1);
        lemma_layers_sent(p, q, n, next, s1);
        assert(s.ch.skip(2 + k).skip(layer_draws(n, k + 1)) =~= s.ch.skip(layer_draws(n, k)));
    } else {
        assert(s.ch.skip(0) =~= s.ch);
    }
}

proof fn lemma_layer_draws_some(n: int, k: int)
    requires
        0 <= k,
    ensures
        layer_draws(n, k) >= 0,
    decreases n - k,
{
    if k < n {
        lemma_layer_draws_some(n, k + 1);
    }
}

/// The denominators of some sums of fractions are invertible.
pub open spec fn blocks_units(
    f: spec_fn(Tab) -> Seq<int>,
    bs: Seq<BlockView>,
    alpha: int,
    beta: int,
) -> bool {
    forall|i: int|
        0 <= i < bs.len() ==> all_units(denominators(f, #[trigger] bs[i], alpha, beta))
}

/// The denominators of an equality are invertible, for the challenges from here on.
pub open spec fn equality_units(
    f: spec_fn(Tab) -> Seq<int>,
    x: EqualityView,
    ch: Seq<int>,
) -> bool {
    blocks_units(f, x.left, ch[0], ch[1]) && blocks_units(f, x.right, ch[0], ch[1])
}

/// The denominators of all the sums of a certificate are invertible.
pub open spec fn sums_defined(f: spec_fn(Tab) -> Seq<int>, p: ProfileView, ch: Seq<int>) -> bool {
    let xs = zero_checks_of(p);
    let es = equalities_of(p);
    let o = NUM_CHALLENGES + checks_draws(xs, xs.len() as int);
    forall|k: int|
        0 <= k < es.len() ==> equality_units(
            f,
            #[trigger] es[k],
            ch.skip(o + equalities_draws(es, k)),
        )
}

/// Sums of fractions that are defined are what they should be.
proof fn lemma_blocks_proved(
    f: spec_fn(Tab) -> Seq<int>,
    bs: Seq<BlockView>,
    alpha: int,
    beta: int,
    st: ProofState,
    n: int,
)
    requires
        0 <= n <= bs.len(),
        blocks_units(f, bs, alpha, beta),
        st.s.ch.len() >= blocks_draws(bs, n),
    ensures
        blocks_draws(bs, n) >= 0,
        ({
            let (end, sum) = prove_blocks(f, bs, alpha, beta, st, n);
            &&& end.ok == st.ok
            &&& sum == blocks_sum(f, bs, one_over(alpha, beta), n)
            &&& end.s.ch == st.s.ch.skip(blocks_draws(bs, n))
            &&& end.s.f.len() >= st.s.f.len()
            &&& n > 0 ==> end.s.f.len() >= st.s.f.len() + bs[0].log_len
        }),
    decreases n,
{
    if n > 0 {
        let b = bs[n - 1];
        lemma_layer_draws_some(b.log_len, 0);
        lemma_blocks_proved(f, bs, alpha, beta, st, n - 1);
        let before = prove_blocks(f, bs, alpha, beta, st, n - 1).0;
        lemma_fraction_block(f, b, alpha, beta);
        reveal(prove_block);
        reveal(send_fractions);
        let num = super::certificate::numerators(f, b);
        let den = denominators(f, b, alpha, beta);
        let (x, y) = super::args::level(num, den, b.log_len);
        let sum = super::args::fraction_sum(num, den);
        let s1 = crate::speaker::send_fs(
            crate::speaker::send_fs(before.s, seq![sum]),
            seq![x[0], y[0]],
        );
        lemma_layers_sent(num, den, b.log_len, Seq::empty(), s1);
        let o = blocks_draws(bs, n - 1);
        let d = layer_draws(b.log_len, 0);
        assert(st.s.ch.skip(o).skip(d) =~= st.s.ch.skip(o + d));
    } else {
        assert(st.s.ch.skip(0) =~= st.s.ch);
    }
}

/// Equalities that are defined and hold are proved.
proof fn lemma_equalities_proved(
    f: spec_fn(Tab) -> Seq<int>,
    es: Seq<EqualityView>,
    st: ProofState,
    n: int,
)
    requires
        0 <= n <= es.len(),
        st.ok,
        forall|k: int|
            0 <= k < es.len() ==> equality_units(
                f,
                #[trigger] es[k],
                st.s.ch.skip(equalities_draws(es, k)),
            ),
        forall|k: int, alpha: int, beta: int|
            0 <= k < es.len() ==> #[trigger] sides_meet(f, es[k], one_over(alpha, beta)),
        st.s.ch.len() >= equalities_draws(es, n),
    ensures
        ({
            let end = prove_equalities(f, es, st, n);
            &&& end.ok
            &&& end.s.ch == st.s.ch.skip(equalities_draws(es, n))
            &&& end.s.f.len() >= st.s.f.len()
            &&& forall|k: int|
                0 <= k < n && (#[trigger] es[k]).right.len() > 0 ==> end.s.f.len()
                    >= es[k].right[0].log_len
        }),
        equalities_draws(es, n) >= 0,
    decreases n,
{
    if n > 0 {
        let x = es[n - 1];
        lemma_blocks_some(x.left, x.left.len() as int);
        lemma_blocks_some(x.right, x.right.len() as int);
        lemma_equalities_proved(f, es, st, n - 1);
        let o = equalities_draws(es, n - 1);
        let before = prove_equalities(f, es, st, n - 1);
        let ch = before.s.ch;
        assert(equality_units(f, es[n - 1], st.s.ch.skip(o)));
        let alpha = ch[0];
        let beta = ch[1];
        assert(sides_meet(f, es[n - 1], one_over(alpha, beta)));
        reveal(prove_equality);
        let st1 = ProofState { s: drawn(before.s, 2), ..before };
        let nl = x.left.len() as int;
        let nr = x.right.len() as int;
        lemma_blocks_proved(f, x.left, alpha, beta, st1, nl);
        let st2 = prove_blocks(f, x.left, alpha, beta, st1, nl).0;
        lemma_blocks_proved(f, x.right, alpha, beta, st2, nr);
        let dl = blocks_draws(x.left, nl);
        let dr = blocks_draws(x.right, nr);
        assert(st.s.ch.skip(o).skip(2).skip(dl).skip(dr) =~= st.s.ch.skip(o + (2 + dl + dr)));
    } else {
        assert(st.s.ch.skip(0) =~= st.s.ch);
    }
}

proof fn lemma_blocks_some(bs: Seq<BlockView>, n: int)
    ensures
        blocks_draws(bs, n) >= 0,
    decreases n,
{
    if n > 0 {
        lemma_blocks_some(bs, n - 1);
        lemma_layer_draws_some(bs[n - 1].log_len, 0);
    }
}

/// The challenges that zero checks draw.
proof fn lemma_checks_sent(
    f: spec_fn(Tab) -> Seq<int>,
    p: ProfileView,
    xs: Seq<CheckView>,
    chals: Seq<int>,
    st: ProofState,
    n: int,
)
    requires
        0 <= n <= xs.len(),
        forall|i: int| 0 <= i < xs.len() ==> check_wf(p, #[trigger] xs[i]),
        st.s.ch.len() >= checks_draws(xs, n),
    ensures
        checks_draws(xs, n) >= 0,
        ({
            let end = prove_checks(f, xs, chals, st, n);
            &&& end.ok == st.ok
            &&& end.s.ch == st.s.ch.skip(checks_draws(xs, n))
        }),
    decreases n,
{
    if n > 0 {
        assert(check_wf(p, xs[n - 1]));
        lemma_checks_sent(f, p, xs, chals, st, n - 1);
        let before = prove_checks(f, xs, chals, st, n - 1);
        let nv = xs[n - 1].log_len;
        reveal(prove_check);
        reveal(super::args::send_eq_sum);
        let o = checks_draws(xs, n - 1);
        assert(before.s.ch.take(nv).len() == nv);
        assert(st.s.ch.skip(o).skip(nv).skip(nv) =~= st.s.ch.skip(o + 2 * nv));
    } else {
        assert(st.s.ch.skip(0) =~= st.s.ch);
    }
}

/// The vectors of a compiled program with a parameter keep the rules of its certificate, if
/// the denominators of its sums are invertible.
#[verifier::rlimit(60)]
#[verifier::spinoff_prover]
pub proof fn law_rules_kept(w: Compiled, ch: Seq<int>)
    requires
        w.ready(),
        w.weights.len() > 0,
        ch.len() >= rules_draws(circuit_profile(w.encoding(), w.circuit())),
        sums_defined(
            circuit_vectors(w.encoding(), w.circuit()),
            circuit_profile(w.encoding(), w.circuit()),
            ch,
        ),
    ensures
        ({
            let f = circuit_vectors(w.encoding(), w.circuit());
            let p = circuit_profile(w.encoding(), w.circuit());
            &&& rules_kept(f, p, ch)
            &&& p.log_range <= prove_rules(f, p, ch).s.f.len()
        }),
{
    let e = w.encoding();
    let c = w.circuit();
    let f = circuit_vectors(e, c);
    let p = circuit_profile(e, c);
    let m = NUM_CHALLENGES as int;
    let xs = zero_checks_of(p);
    let es = equalities_of(p);
    let nx = xs.len() as int;
    let ne = es.len() as int;
    law_slacks(w);
    lemma_circuit_profile(e, c);
    lemma_checks_wf(p);
    lemma_zero_checks(w, ch.take(m));
    lemma_boundaries_hold(e, c);
    reveal(prove_rules);
    let st = ProofState {
        s: drawn(crate::prover::fresh(ch), m),
        acc: crate::sparse::Acc { polys: Seq::empty(), points: Seq::empty() },
        ok: true,
    };
    lemma_equalities_some(es, ne);
    lemma_checks_sent(f, p, xs, ch.take(m), st, nx);
    let st1 = prove_checks(f, xs, ch.take(m), st, nx);
    let o = m + checks_draws(xs, nx);
    assert(st1.s.ch =~= ch.skip(o));
    assert forall|k: int| 0 <= k < es.len() implies equality_units(
        f,
        #[trigger] es[k],
        st1.s.ch.skip(equalities_draws(es, k)),
    ) by {
        lemma_equalities_some(es, k);
        lemma_equalities_grow(es, k, ne);
        assert(ch.skip(o).skip(equalities_draws(es, k)) =~= ch.skip(o + equalities_draws(es, k)));
    }
    assert forall|k: int, alpha: int, beta: int| 0 <= k < es.len() implies #[trigger] sides_meet(
        f,
        es[k],
        one_over(alpha, beta),
    ) by {
        lemma_equalities(w, one_over(alpha, beta), k);
    }
    lemma_equalities_proved(f, es, st1, ne);
    assert(es.len() > 6 && es[6] == super::relation::eq_ranges(p)) by {
        reveal(equalities_of);
    }
    assert(es[6].right.len() > 0);
}

proof fn lemma_equalities_some(es: Seq<EqualityView>, n: int)
    ensures
        equalities_draws(es, n) >= 0,
    decreases n,
{
    if n > 0 {
        lemma_equalities_some(es, n - 1);
        let x = es[n - 1];
        lemma_blocks_some(x.left, x.left.len() as int);
        lemma_blocks_some(x.right, x.right.len() as int);
    }
}

proof fn lemma_equalities_grow(es: Seq<EqualityView>, n: int, m: int)
    requires
        0 <= n <= m,
    ensures
        equalities_draws(es, n) <= equalities_draws(es, m),
    decreases m,
{
    if n < m {
        lemma_equalities_grow(es, n, m - 1);
        let x = es[m - 1];
        lemma_blocks_some(x.left, x.left.len() as int);
        lemma_blocks_some(x.right, x.right.len() as int);
    }
}

/// The vectors of a program fill their cubes.
proof fn lemma_vectors_fit(e: EncodingView, c: CircuitView)
    requires
        registrable(e, c),
    ensures
        vectors_fit(circuit_vectors(e, c), circuit_profile(e, c)),
{
    let p = circuit_profile(e, c);
    let f = circuit_vectors(e, c);
    lemma_table_size(e.z_len + 2);
    lemma_suffix_group(c, 1);
    lemma_prefix_group(c, 1);
    assert forall|t: Tab| t.committed() && tab_ok(t) implies 0 < (#[trigger] f(t)).len() <= pow2(
        tab_log(p, t) as nat,
    ) by {
        lemma_witness_len(e, c, p, t);
        lemma_pow2_mono(0, tab_log(p, t) as nat);
        lemma_pow2_step(0);
    }
}

/// The commitment to a vector of a registration is the same with all the parameters.
proof fn lemma_commit_trimmed(
    srs: Seq<int>,
    f: spec_fn(Tab) -> Seq<int>,
    p: ProfileView,
    t: Tab,
)
    requires
        profile_fits(p),
        vectors_fit(f, p),
        t.committed(),
        tab_ok(t),
    ensures
        commit_of(trimmed(srs, p), f(t)) == commit_of(srs, f(t)),
{
    let n = pow2(log_srs_of(p) as nat) as int;
    lemma_tab_log(p, t);
    lemma_pow2_mono(tab_log(p, t) as nat, log_srs_of(p) as nat);
    assert(0 < f(t).len() <= pow2(tab_log(p, t) as nat));
    if n <= srs.len() {
        lemma_commit_trim(srs, n, f(t));
    } else {
        assert(srs.take(srs.len() as int) =~= srs);
    }
}

/// The commitments that a registration and a key hold are to the vectors: those of the
/// program with the parameters that the registration needs, and those of the circuit with
/// all the parameters.
pub open spec fn registered_to(
    srs: Seq<int>,
    p: ProfileView,
    f: spec_fn(Tab) -> Seq<int>,
    gv: spec_fn(Tab) -> Seq<int>,
) -> bool {
    &&& forall|t: Tab| of_program(t) ==> #[trigger] gv(t) == commit_of(trimmed(srs, p), f(t))
    &&& forall|t: Tab| of_circuit(t) ==> #[trigger] gv(t) == commit_of(srs, f(t))
}

/// The registration of a program without errors, with at least one parameter, is accepted:
/// the circuit that it compiles to breaks no rule, no place is out of range and no sums
/// differ, so that there is a certificate; and a verifier that holds the commitments to the
/// circuit, and is given those that the registration makes, accepts it. The denominators of
/// the sums of the certificate are invertible and no challenge of its rounds is a node.
#[verifier::rlimit(60)]
#[verifier::spinoff_prover]
pub proof fn law_registration(
    g: int,
    h: int,
    tau: Seq<int>,
    w: Compiled,
    gv: spec_fn(Tab) -> Seq<int>,
    ch: Seq<int>,
)
    requires
        w.ready(),
        w.weights.len() > 0,
        ({
            let f = circuit_vectors(w.encoding(), w.circuit());
            let p = circuit_profile(w.encoding(), w.circuit());
            &&& registered_to(srs_of(g, tau), p, f, gv)
            &&& certifiable(srs_of(g, tau), f, p, ch)
            &&& sums_defined(f, p, ch)
            &&& rules_off(p, ch)
        }),
    ensures
        ({
            let f = circuit_vectors(w.encoding(), w.circuit());
            let p = circuit_profile(w.encoding(), w.circuit());
            let full = certificate_of(srs_of(g, tau), f, p, ch);
            let st = verify_rules(
                ver_params_of(g, h, tau),
                gv,
                p,
                State { u: full.u, f: full.f, g: full.g, ch, ok: true },
            );
            &&& violation(w.encoding(), w.circuit()) is None
            &&& slacks_fit(w.encoding(), w.circuit())
            &&& prove_rules(f, p, ch).ok
            &&& p.log_range <= full.f.len()
            &&& st.ok
            &&& st.ch == full.ch
        }),
{
    let e = w.encoding();
    let c = w.circuit();
    let f = circuit_vectors(e, c);
    let p = circuit_profile(e, c);
    let srs = srs_of(g, tau);
    lemma_circuit_profile(e, c);
    lemma_vectors_fit(e, c);
    lemma_log2_ceil(e.z_len + 2);
    law_rules_kept(w, ch);
    law_slacks(w);
    law_compiled(w.instrs, w.weights, w.input_len, w.aux_start, w.table);
    assert forall|t: Tab| t.committed() && tab_ok(t) implies #[trigger] gv(t) == commit_of(
        srs,
        f(t),
    ) by {
        if of_program(t) {
            assert(gv(t) == commit_of(trimmed(srs, p), f(t)));
            lemma_commit_trimmed(srs, f, p, t);
        } else {
            assert(of_circuit(t));
        }
    }
    law_certificate(g, h, tau, p, f, gv, ch);
}

} // verus!
