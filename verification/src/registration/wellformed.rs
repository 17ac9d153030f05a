//! The rules of a certificate are well formed.
use vstd::prelude::*;
use vstd::arithmetic::power2::*;
use crate::registration::encode::{NUM_OPCODES, NUM_OPERANDS};
use crate::registration::family::{
    FamilyView, MAX_DIGITS, NUM_FAMILIES, convolution_families, ex_degree, ex_gate, ex_reads,
    families_of, family_wf, lemma_ex_gate, lemma_families, product_families,
};
use crate::registration::relation::{
    BlockView, CheckView, EqualityView, LinView, NUM_CHALLENGES, Tab, block_gates, check_blocks,
    check_increments, check_inputs, check_masks, check_plain_powers, check_positions, check_powers,
    check_prefix_mask, check_prefix_powers, check_prefix_slack, check_read_slack, check_selectors,
    check_sides, check_sizes, digit_tabs, entry_lins, eq_counters, eq_entries, eq_expansion,
    eq_family, eq_lookup_entries, eq_lookups, eq_outputs, eq_prefix_entries, eq_products, eq_ranges,
    eq_rows, eq_types, equalities_of, fam_ind, fam_lo, family_block, family_col, family_row,
    family_tabs, flat_gate, g_add, g_coin, g_mul, g_num, g_sub, g_var, increment_gate, joined_gates,
    left_gate, left_gates, lin_of, lin_plus, lins_of, mask_gates, masked_block, number_gate,
    plain_counters, position_gates, power_gate, power_gates, program_tabs, seg_ind, selector_gates,
    shifted_counters, sides_gate, size_gates, unused_gate, zero_checks_of,
};
use crate::registration::witness::{
    CTR_AUX, CTR_CR, CTR_LR, CTR_OUT, ProfileView, lemma_cumulated, profile_fits, tab_log, tab_ok,
};
use crate::sparse::{lemma_table_size, size_limit};
use crate::sumcheck::{Gate, gate_degree, gate_fits, log2_ceil};

verus! {

/// A vector can be read by a rule with the given number of variables.
pub open spec fn tab_wf(p: ProfileView, log: int, t: Tab) -> bool {
    &&& tab_ok(t)
    &&& t.committed() ==> tab_log(p, t) == log
    &&& t is Ind ==> pow2(log as nat) <= usize::MAX
    &&& ordered(t)
}

/// The bounds of an indicator are in order.
pub open spec fn ordered(t: Tab) -> bool {
    match t {
        Tab::Ind(lo, hi) => lo <= hi,
        _ => true,
    }
}

/// All the vectors of a list can be read.
pub open spec fn tabs_wf(p: ProfileView, log: int, tabs: Seq<Tab>) -> bool {
    forall|k: int| 0 <= k < tabs.len() ==> tab_wf(p, log, #[trigger] tabs[k])
}

/// A zero check is well formed: its expression reads the vectors and challenges that
/// there are, and has the degree that it says, less one.
pub open spec fn check_wf(p: ProfileView, x: CheckView) -> bool {
    &&& 1 <= x.log_len
    &&& pow2(x.log_len as nat) < usize::MAX
    &&& 1 <= x.degree < usize::MAX
    &&& 1 <= x.tables.len() < 100
    &&& gate_fits(x.gate, x.tables.len(), NUM_CHALLENGES as nat)
    &&& gate_degree(x.gate) + 1 <= x.degree
    &&& tabs_wf(p, x.log_len, x.tables)
}

/// All the vectors of an expression can be read.
pub open spec fn lin_wf(p: ProfileView, log: int, l: LinView) -> bool {
    forall|k: int| 0 <= k < l.terms.len() ==> tab_wf(p, log, (#[trigger] l.terms[k]).1)
}

/// All the vectors of some expressions can be read.
pub open spec fn lins_wf(p: ProfileView, log: int, ls: Seq<LinView>) -> bool {
    forall|k: int| 0 <= k < ls.len() ==> lin_wf(p, log, #[trigger] ls[k])
}

/// A sum of fractions is well formed.
pub open spec fn block_wf(p: ProfileView, b: BlockView) -> bool {
    &&& 0 <= b.log_len
    &&& b.log_len != p.log_range ==> pow2(b.log_len as nat) < usize::MAX
    &&& lin_wf(p, b.log_len, b.num)
    &&& lins_wf(p, b.log_len, b.comps)
}

/// The sums of an equality are well formed.
pub open spec fn blocks_wf(p: ProfileView, bs: Seq<BlockView>) -> bool {
    forall|k: int| 0 <= k < bs.len() ==> block_wf(p, #[trigger] bs[k])
}

/// An equality is well formed.
pub open spec fn equality_wf(p: ProfileView, e: EqualityView) -> bool {
    blocks_wf(p, e.left) && blocks_wf(p, e.right)
}

/// An expression reads the vectors and challenges that there are, and has at most
/// the given degree.
pub open spec fn gate_wf(g: Gate, vars: nat, d: nat) -> bool {
    gate_fits(g, vars, NUM_CHALLENGES as nat) && gate_degree(g) <= d
}

proof fn lemma_joined(x: int, gs: Seq<Gate>, k: int, vars: nat, d: nat)
    requires
        0 <= x < NUM_CHALLENGES,
        0 <= k <= gs.len(),
        forall|i: int| 0 <= i < gs.len() ==> gate_wf(#[trigger] gs[i], vars, d),
    ensures
        gate_wf(joined_gates(x, gs, k), vars, d),
    decreases gs.len() - k,
{
    reveal_with_fuel(gate_fits, 4);
    reveal_with_fuel(gate_degree, 4);
    if k < gs.len() {
        lemma_joined(x, gs, k + 1, vars, d);
        assert(gate_wf(gs[k], vars, d));
    }
}

proof fn lemma_logs(p: ProfileView)
    requires
        profile_fits(p),
    ensures
        forall|n: int|
            n <= size_limit() ==> {
                &&& 1 <= #[trigger] log2_ceil(n)
                &&& pow2(log2_ceil(n)) < usize::MAX
            },
        forall|m: int| 0 <= m < 5 ==> ordered(#[trigger] seg_ind(p, m)),
        forall|f: int| 0 <= f < NUM_FAMILIES ==> ordered(#[trigger] fam_ind(p, f)),
{
    assert forall|n: int| n <= size_limit() implies {
        &&& 1 <= #[trigger] log2_ceil(n)
        &&& pow2(log2_ceil(n)) < usize::MAX
    } by {
        lemma_table_size(n);
    }
    assert forall|m: int| 0 <= m < 5 implies ordered(#[trigger] seg_ind(p, m)) by {
        lemma_cumulated(p.matrix_lens, m, m + 1);
        lemma_cumulated(p.matrix_lens, m + 1, 5);
    }
    assert forall|f: int| 0 <= f < NUM_FAMILIES implies ordered(#[trigger] fam_ind(p, f)) by {
        lemma_cumulated(p.family_lens, f, f + 1);
        lemma_cumulated(p.family_lens, f + 1, NUM_FAMILIES as int);
    }
}

/// Sums and differences keep a degree, products add degrees.
proof fn lemma_gate_ops(a: Gate, b: Gate, vars: nat, da: nat, db: nat)
    requires
        gate_wf(a, vars, da),
        gate_wf(b, vars, db),
    ensures
        da <= db ==> gate_wf(g_add(a, b), vars, db) && gate_wf(g_sub(a, b), vars, db),
        db <= da ==> gate_wf(g_add(a, b), vars, da) && gate_wf(g_sub(a, b), vars, da),
        gate_wf(g_mul(a, b), vars, da + db),
{
}

proof fn lemma_selector_gates()
    ensures
        gate_wf(check_selectors_gate(), 6, 2),
{
    let gs = selector_gates();
    assert forall|i: int| 0 <= i < gs.len() implies gate_wf(#[trigger] gs[i], 6, 2) by {
        reveal_with_fuel(gate_fits, 7);
        reveal_with_fuel(gate_degree, 7);
        if i < NUM_OPCODES {
            assert(gs[i] == g_mul(g_var(i), g_sub(g_var(i), g_num(1))));
        }
    }
    lemma_joined(0, gs, 0, 6, 2);
}

/// The expression of the check of the selectors.
pub open spec fn check_selectors_gate() -> Gate {
    joined_gates(0, selector_gates(), 0)
}

#[verifier::rlimit(60)]
proof fn lemma_increment_gate()
    ensures
        gate_wf(increment_gate(), 15, 4),
{
    reveal_with_fuel(gate_fits, 4);
    reveal_with_fuel(gate_degree, 4);
    let side = g_sub(g_add(g_var(7), g_var(8)), g_num(1));
    assert(gate_wf(side, 15, 1));
    let m = g_mul(g_mul(g_var(3), g_var(5)), g_var(7));
    assert(gate_wf(m, 15, 3));
    let s = g_add(g_add(g_var(0), g_var(1)), g_var(2));
    assert(gate_wf(s, 15, 1));
    let v = g_mul(g_var(4), g_var(6));
    assert(gate_wf(v, 15, 2));
    lemma_gate_ops(v, side, 15, 2, 1);
    lemma_gate_ops(g_mul(v, side), side, 15, 3, 1);
    lemma_gate_ops(s, m, 15, 1, 3);
    let w = g_mul(g_mul(v, side), side);
    lemma_gate_ops(g_add(s, m), w, 15, 3, 4);
    let d_out = g_add(g_add(s, m), w);
    let d_aux = g_add(
        g_add(g_var(2), g_mul(g_var(3), g_var(6))),
        g_mul(g_var(4), g_var(5)),
    );
    assert(gate_wf(d_aux, 15, 2));
    let ca = g_add(g_add(g_var(0), g_var(2)), g_mul(g_var(3), g_add(g_var(6), g_num(1))));
    assert(gate_wf(ca, 15, 2));
    let cb = g_mul(g_var(4), g_add(g_var(5), g_num(1)));
    assert(gate_wf(cb, 15, 2));
    lemma_gate_ops(ca, cb, 15, 2, 2);
    let d_cr = g_add(ca, cb);
    let d_lr = g_add(g_var(1), g_add(g_var(2), g_var(2)));
    assert(gate_wf(d_lr, 15, 1));
    lemma_gate_ops(g_var(11), d_out, 15, 1, 4);
    lemma_gate_ops(g_var(12), d_aux, 15, 1, 2);
    lemma_gate_ops(g_var(13), d_cr, 15, 1, 2);
    lemma_gate_ops(g_var(14), d_lr, 15, 1, 1);
    lemma_gate_ops(g_coin(1), g_sub(g_var(11), d_out), 15, 0, 4);
    lemma_gate_ops(g_coin(2), g_sub(g_var(12), d_aux), 15, 0, 2);
    lemma_gate_ops(g_coin(3), g_sub(g_var(13), d_cr), 15, 0, 2);
    lemma_gate_ops(g_coin(4), g_sub(g_var(14), d_lr), 15, 0, 1);
    let t1 = g_mul(g_coin(1), g_sub(g_var(11), d_out));
    let t2 = g_mul(g_coin(2), g_sub(g_var(12), d_aux));
    let t3 = g_mul(g_coin(3), g_sub(g_var(13), d_cr));
    let t4 = g_mul(g_coin(4), g_sub(g_var(14), d_lr));
    lemma_gate_ops(t1, t2, 15, 4, 2);
    lemma_gate_ops(g_add(t1, t2), t3, 15, 4, 2);
    lemma_gate_ops(g_add(g_add(t1, t2), t3), t4, 15, 4, 1);
}

proof fn lemma_size_gates()
    ensures
        gate_wf(joined_gates(6, size_gates(), 0), 23, 5),
{
    lemma_families();
    let gs = size_gates();
    assert forall|i: int| 0 <= i < gs.len() implies gate_wf(#[trigger] gs[i], 23, 5) by {
        let fam = families_of()[i];
        assert(family_wf(fam));
        let n = fam.radices.len() as int;
        lemma_sides_gate(fam, NUM_OPCODES as int, n, 23);
        lemma_sides_degree(i);
        let a = g_var(fam.opcode.number());
        let b = sides_gate(fam, NUM_OPCODES as int, n);
        lemma_gate_ops(a, b, 23, 1, 4);
        lemma_gate_ops(g_var(11 + i), g_mul(a, b), 23, 1, 5);
    }
    lemma_joined(6, gs, 0, 23, 5);
}

proof fn lemma_program_checks(p: ProfileView)
    requires
        profile_fits(p),
    ensures
        check_wf(p, check_selectors(p)),
        check_wf(p, check_increments(p)),
        check_wf(p, check_sizes(p)),
{
    lemma_logs(p);
    let log = log2_ceil(p.instr_count + 1) as int;
    assert(check_wf(p, check_selectors(p))) by {
        lemma_selector_gates();
        assert(tabs_wf(p, log, check_selectors(p).tables));
    }
    assert(check_wf(p, check_increments(p))) by {
        lemma_increment_gate();
        let t = check_increments(p).tables;
        assert(t.len() == 15);
        assert forall|k: int| 0 <= k < t.len() implies tab_wf(p, log, #[trigger] t[k]) by {
            if k < 11 {
                assert(t[k] == program_tabs()[k]);
            }
        }
    }
    assert(check_wf(p, check_sizes(p))) by {
        lemma_size_gates();
        let t = check_sizes(p).tables;
        assert(t.len() == 23);
        assert forall|k: int| 0 <= k < t.len() implies tab_wf(p, log, #[trigger] t[k]) by {
            if k < 11 {
                assert(t[k] == program_tabs()[k]);
            } else {
                assert(t[k] == Tab::Mult((k - 11) as usize));
            }
        }
    }
}

/// The degree of the product of the first `n` sides of a grid.
pub open spec fn sides_degree(f: FamilyView, n: int) -> nat
    decreases n,
{
    if n <= 0 {
        0
    } else {
        sides_degree(f, n - 1) + ex_degree(f.radices[n - 1])
    }
}

proof fn lemma_sides_gate(f: FamilyView, base: int, n: int, vars: nat)
    requires
        family_wf(f),
        0 <= n <= f.radices.len(),
        0 <= base,
        base + NUM_OPERANDS <= vars <= 100,
    ensures
        gate_fits(sides_gate(f, base, n), vars, NUM_CHALLENGES as nat),
        gate_degree(sides_gate(f, base, n)) == sides_degree(f, n),
    decreases n,
{
    if n > 0 {
        lemma_sides_gate(f, base, n - 1, vars);
        assert(ex_reads(f.radices[n - 1], NUM_OPERANDS as nat));
        lemma_ex_gate(
            f.radices[n - 1],
            base,
            Seq::empty(),
            Seq::empty(),
            vars,
            NUM_CHALLENGES as nat,
        );
    }
}

/// What the families say has the degrees that the checks count with.
proof fn lemma_sides_degree(f: int)
    requires
        0 <= f < NUM_FAMILIES,
    ensures
        sides_degree(families_of()[f], families_of()[f].radices.len() as int) <= 4,
        forall|j: int|
            0 <= j < families_of()[f].radices.len() ==> ex_degree(
                #[trigger] families_of()[f].radices[j],
            ) <= 1,
        families_of()[f].pow.len() <= 3,
        forall|j: int|
            0 <= j < families_of()[f].pow.len() ==> ex_degree(
                (#[trigger] families_of()[f].pow[j]).0,
            ) <= 2,
        ex_degree(families_of()[f].pow_const) <= 2,
{
    reveal_with_fuel(ex_degree, 5);
    reveal_with_fuel(sides_degree, 6);
    let p = product_families();
    let v = convolution_families();
    if f < 6 {
        assert(families_of()[f] == p[f]);
        assert(f == 0 || f == 1 || f == 2 || f == 3 || f == 4 || f == 5);
    } else {
        assert(families_of()[f] == v[f - 6]);
        assert(f == 6 || f == 7 || f == 8 || f == 9 || f == 10 || f == 11);
    }
}

#[verifier::rlimit(60)]
proof fn lemma_entry_gates(p: ProfileView)
    ensures
        gate_wf(check_read_slack(p).gate, 8, 2),
        gate_wf(check_prefix_slack(p).gate, 3, 2),
        gate_wf(check_inputs(p).gate, 2, 2),
        gate_wf(check_plain_powers(p).gate, 6, 2),
        gate_wf(check_prefix_powers(p).gate, 3, 2),
        gate_wf(check_masks(p).gate, 7, 2),
        gate_wf(check_prefix_mask(p).gate, 3, 2),
        gate_wf(check_blocks(p).gate, 6, 2),
{
    assert(gate_wf(check_read_slack(p).gate, 8, 2)) by {
        reveal_with_fuel(gate_fits, 6);
        reveal_with_fuel(gate_degree, 6);
        let a = g_sub(g_sub(g_add(g_add(g_var(3), g_var(4)), g_var(5)), g_var(6)), g_var(7));
        let b = g_sub(g_sub(g_sub(g_var(1), g_num(p.weight_len)), g_var(2)), g_num(1));
        assert(gate_wf(a, 8, 1));
        assert(gate_wf(b, 8, 1));
        lemma_gate_ops(a, b, 8, 1, 1);
        lemma_gate_ops(g_var(0), g_mul(a, b), 8, 1, 2);
    }
    assert(gate_wf(check_prefix_slack(p).gate, 3, 2)) by {
        reveal_with_fuel(gate_fits, 6);
        reveal_with_fuel(gate_degree, 6);
    }
    assert(gate_wf(check_inputs(p).gate, 2, 2)) by {
        reveal_with_fuel(gate_fits, 6);
        reveal_with_fuel(gate_degree, 6);
    }
    assert(gate_wf(check_plain_powers(p).gate, 6, 2)) by {
        reveal_with_fuel(gate_fits, 6);
        reveal_with_fuel(gate_degree, 6);
        let a = g_sub(g_sub(g_add(g_add(g_var(1), g_var(2)), g_var(3)), g_var(4)), g_var(5));
        assert(gate_wf(a, 6, 1));
        lemma_gate_ops(a, g_var(0), 6, 1, 1);
    }
    assert(gate_wf(check_prefix_powers(p).gate, 3, 2)) by {
        reveal_with_fuel(gate_fits, 6);
        reveal_with_fuel(gate_degree, 6);
    }
    assert(gate_wf(check_masks(p).gate, 7, 2)) by {
        let gs = mask_gates();
        assert forall|i: int| 0 <= i < gs.len() implies gate_wf(#[trigger] gs[i], 7, 2) by {
            reveal_with_fuel(gate_fits, 5);
            reveal_with_fuel(gate_degree, 5);
        }
        lemma_joined(5, gs, 0, 7, 2);
    }
    assert(gate_wf(check_prefix_mask(p).gate, 3, 2)) by {
        reveal_with_fuel(gate_fits, 6);
        reveal_with_fuel(gate_degree, 6);
    }
    assert(gate_wf(check_blocks(p).gate, 6, 2)) by {
        let gs = block_gates();
        assert forall|i: int| 0 <= i < gs.len() implies gate_wf(#[trigger] gs[i], 6, 2) by {
            reveal_with_fuel(gate_fits, 7);
            reveal_with_fuel(gate_degree, 7);
        }
        lemma_joined(5, gs, 0, 6, 2);
    }
}

proof fn lemma_entry_checks(p: ProfileView)
    requires
        profile_fits(p),
    ensures
        check_wf(p, check_read_slack(p)),
        check_wf(p, check_prefix_slack(p)),
        check_wf(p, check_inputs(p)),
        check_wf(p, check_plain_powers(p)),
        check_wf(p, check_prefix_powers(p)),
        check_wf(p, check_masks(p)),
        check_wf(p, check_prefix_mask(p)),
        check_wf(p, check_blocks(p)),
{
    lemma_logs(p);
    lemma_entry_gates(p);
    assert(check_read_slack(p).tables.len() == 8);
    assert(check_prefix_slack(p).tables.len() == 3);
    assert(check_inputs(p).tables.len() == 2);
    assert(check_plain_powers(p).tables.len() == 6);
    assert(check_prefix_powers(p).tables.len() == 3);
    assert(check_masks(p).tables.len() == 7);
    assert(check_prefix_mask(p).tables.len() == 3);
    assert(check_blocks(p).tables.len() == 6);
    assert(tabs_wf(p, check_read_slack(p).log_len, check_read_slack(p).tables));
    assert(tabs_wf(p, check_prefix_slack(p).log_len, check_prefix_slack(p).tables));
    assert(tabs_wf(p, check_inputs(p).log_len, check_inputs(p).tables));
    assert(tabs_wf(p, check_plain_powers(p).log_len, check_plain_powers(p).tables));
    assert(tabs_wf(p, check_prefix_powers(p).log_len, check_prefix_powers(p).tables));
    assert(tabs_wf(p, check_masks(p).log_len, check_masks(p).tables));
    assert(tabs_wf(p, check_prefix_mask(p).log_len, check_prefix_mask(p).tables));
    assert(tabs_wf(p, check_blocks(p).log_len, check_blocks(p).tables));
}

proof fn lemma_number_gate(f: FamilyView, digits: int, ops: int, n: int, vars: nat)
    requires
        family_wf(f),
        1 <= n <= f.radices.len(),
        forall|j: int| 0 <= j < f.radices.len() ==> ex_degree(#[trigger] f.radices[j]) <= 1,
        0 <= digits,
        digits + MAX_DIGITS <= vars,
        0 <= ops,
        ops + NUM_OPERANDS <= vars <= 100,
    ensures
        gate_fits(number_gate(f, digits, ops, n), vars, NUM_CHALLENGES as nat),
        gate_degree(number_gate(f, digits, ops, n)) <= n,
    decreases n,
{
    if n > 1 {
        lemma_number_gate(f, digits, ops, n - 1, vars);
        assert(ex_reads(f.radices[n - 1], NUM_OPERANDS as nat));
        lemma_ex_gate(
            f.radices[n - 1],
            ops,
            Seq::empty(),
            Seq::empty(),
            vars,
            NUM_CHALLENGES as nat,
        );
        reveal_with_fuel(gate_fits, 4);
        reveal_with_fuel(gate_degree, 4);
        assert(ex_degree(f.radices[n - 1]) <= 1);
    }
}

proof fn lemma_unused_gate(digits: int, k: int, vars: nat)
    requires
        0 <= k,
        0 <= digits,
        digits + MAX_DIGITS <= vars <= 100,
    ensures
        gate_wf(unused_gate(digits, k), vars, 1),
    decreases MAX_DIGITS - k,
{
    if k < MAX_DIGITS {
        lemma_unused_gate(digits, k + 1, vars);
        lemma_gate_ops(g_var(digits + k), unused_gate(digits, k + 1), vars, 1, 1);
    }
}

proof fn lemma_power_gate(f: FamilyView, lo: int, n: int, vars: nat)
    requires
        family_wf(f),
        0 <= n <= f.pow.len(),
        forall|j: int| 0 <= j < f.pow.len() ==> ex_degree((#[trigger] f.pow[j]).0) <= 2,
        ex_degree(f.pow_const) <= 2,
        25 <= vars <= 100,
    ensures
        gate_wf(power_gate(f, lo, n), vars, 3),
    decreases n,
{
    reveal_with_fuel(gate_fits, 5);
    reveal_with_fuel(gate_degree, 5);
    if n <= 0 {
        lemma_ex_gate(
            f.pow_const,
            7,
            Seq::empty(),
            Seq::empty(),
            vars,
            NUM_CHALLENGES as nat,
        );
    } else {
        lemma_power_gate(f, lo, n - 1, vars);
        let term = f.pow[n - 1];
        assert(ex_reads(term.0, NUM_OPERANDS as nat));
        assert(ex_degree(term.0) <= 2);
        lemma_ex_gate(term.0, 7, Seq::empty(), Seq::empty(), vars, NUM_CHALLENGES as nat);
    }
}

proof fn lemma_family_tabs(p: ProfileView, before: Seq<Tab>)
    requires
        profile_fits(p),
        tabs_wf(p, log2_ceil(p.x_len) as int, before),
    ensures
        tabs_wf(p, log2_ceil(p.x_len) as int, before + digit_tabs() + family_tabs(p)),
        (before + digit_tabs() + family_tabs(p)).len() == before.len() + 22,
{
    lemma_logs(p);
    let log = log2_ceil(p.x_len) as int;
    let t = before + digit_tabs() + family_tabs(p);
    let n = before.len() as int;
    assert forall|k: int| 0 <= k < t.len() implies tab_wf(p, log, #[trigger] t[k]) by {
        if k < n {
            assert(t[k] == before[k]);
        } else if k < n + 4 {
            assert(t[k] == digit_tabs()[k - n]);
        } else if k < n + 10 {
            assert(t[k] == family_tabs(p)[k - n - 4]);
        } else {
            assert(t[k] == fam_ind(p, k - n - 10));
        }
    }
}

proof fn lemma_position_gates(p: ProfileView)
    ensures
        gate_wf(joined_gates(7, position_gates(p), 0), 24, 5),
{
    lemma_families();
    let gs = position_gates(p);
    assert forall|i: int| 0 <= i < gs.len() implies gate_wf(#[trigger] gs[i], 24, 5) by {
        let fam = families_of()[i];
        assert(family_wf(fam));
        lemma_sides_degree(i);
        let n = fam.radices.len() as int;
        lemma_number_gate(fam, 2, 6, n, 24);
        lemma_unused_gate(2, n, 24);
        let a = flat_gate(fam_lo(p, i), 0);
        assert(gate_wf(a, 24, 1)) by {
            reveal_with_fuel(gate_fits, 4);
            reveal_with_fuel(gate_degree, 4);
        }
        let b = number_gate(fam, 2, 6, n);
        let u = unused_gate(2, n);
        lemma_gate_ops(a, b, 24, 1, 4);
        lemma_gate_ops(g_sub(a, b), u, 24, 4, 1);
        lemma_gate_ops(g_var(12 + i), g_add(g_sub(a, b), u), 24, 1, 4);
    }
    lemma_joined(7, gs, 0, 24, 5);
}

proof fn lemma_left_gates()
    ensures
        gate_wf(joined_gates(7, left_gates(), 0), 26, 2),
{
    lemma_families();
    let gs = left_gates();
    assert forall|i: int| 0 <= i < gs.len() implies gate_wf(#[trigger] gs[i], 26, 2) by {
        let f = i / MAX_DIGITS as int;
        let j = i % MAX_DIGITS as int;
        let fam = families_of()[f];
        assert(family_wf(fam));
        lemma_sides_degree(f);
        let l = left_gate(fam, j);
        if j < fam.radices.len() {
            assert(ex_reads(fam.radices[j], NUM_OPERANDS as nat));
            lemma_ex_gate(
                fam.radices[j],
                8,
                Seq::empty(),
                Seq::empty(),
                26,
                NUM_CHALLENGES as nat,
            );
            assert(ex_degree(fam.radices[j]) <= 1);
            let e = ex_gate(fam.radices[j], 8);
            lemma_gate_ops(e, g_num(1), 26, 1, 0);
            lemma_gate_ops(g_sub(e, g_num(1)), g_var(4 + j), 26, 1, 1);
        }
        assert(gate_wf(l, 26, 1));
        lemma_gate_ops(g_var(j), l, 26, 1, 1);
        lemma_gate_ops(g_var(14 + f), g_sub(g_var(j), l), 26, 1, 1);
    }
    lemma_joined(7, gs, 0, 26, 2);
}

proof fn lemma_power_gates(p: ProfileView)
    ensures
        gate_wf(joined_gates(7, power_gates(p), 0), 25, 4),
{
    lemma_families();
    let gs = power_gates(p);
    assert forall|i: int| 0 <= i < gs.len() implies gate_wf(#[trigger] gs[i], 25, 4) by {
        let fam = families_of()[i];
        assert(family_wf(fam));
        lemma_sides_degree(i);
        let n = fam.pow.len() as int;
        lemma_power_gate(fam, fam_lo(p, i), n, 25);
        let g = power_gate(fam, fam_lo(p, i), n);
        lemma_gate_ops(g_var(0), g, 25, 1, 3);
        lemma_gate_ops(g_var(13 + i), g_sub(g_var(0), g), 25, 1, 3);
    }
    lemma_joined(7, gs, 0, 25, 4);
}

proof fn lemma_family_checks(p: ProfileView)
    requires
        profile_fits(p),
    ensures
        check_wf(p, check_positions(p)),
        check_wf(p, check_sides(p)),
        check_wf(p, check_powers(p)),
{
    lemma_logs(p);
    lemma_position_gates(p);
    lemma_left_gates();
    lemma_power_gates(p);
    lemma_family_tabs(p, seq![Tab::Identity, Tab::XBase]);
    lemma_family_tabs(
        p,
        seq![
            Tab::XDigitSlack(0),
            Tab::XDigitSlack(1),
            Tab::XDigitSlack(2),
            Tab::XDigitSlack(3),
        ],
    );
    lemma_family_tabs(p, seq![Tab::XPow, Tab::Identity, Tab::XBase]);
}

/// All the zero checks are well formed.
pub proof fn lemma_checks_wf(p: ProfileView)
    requires
        profile_fits(p),
    ensures
        forall|k: int|
            0 <= k < zero_checks_of(p).len() ==> check_wf(p, #[trigger] zero_checks_of(p)[k]),
{
    lemma_program_checks(p);
    lemma_entry_checks(p);
    lemma_family_checks(p);
    reveal(zero_checks_of);
    let z = zero_checks_of(p);
    assert forall|k: int| 0 <= k < z.len() implies check_wf(p, #[trigger] z[k]) by {
        assert(k == 0 || k == 1 || k == 2 || k == 3 || k == 4 || k == 5 || k == 6 || k == 7 || k
            == 8 || k == 9 || k == 10 || k == 11 || k == 12 || k == 13);
    }
}

proof fn lemma_lins_of(p: ProfileView, log: int, tabs: Seq<Tab>)
    requires
        tabs_wf(p, log, tabs),
    ensures
        lins_wf(p, log, lins_of(tabs)),
{
    let ls = lins_of(tabs);
    assert forall|k: int| 0 <= k < ls.len() implies lin_wf(p, log, #[trigger] ls[k]) by {
        assert(ls[k] == lin_of(tabs[k]));
        assert(tab_wf(p, log, tabs[k]));
    }
}

proof fn lemma_first_equalities(p: ProfileView)
    requires
        profile_fits(p),
    ensures
        equality_wf(p, eq_counters(p)),
        equality_wf(p, eq_rows(p)),
        equality_wf(p, eq_lookups(p)),
        equality_wf(p, eq_entries(p)),
        equality_wf(p, eq_lookup_entries(p)),
        equality_wf(p, eq_prefix_entries(p)),
{
    lemma_logs(p);
    let q = log2_ceil(p.instr_count + 1) as int;
    let cons = log2_ceil(p.cons_line) as int;
    let lu = log2_ceil(p.lu_line) as int;
    let ent = log2_ceil(p.entry_len) as int;
    let pre = log2_ceil(p.b_pre_len) as int;
    assert(ordered(seg_ind(p, 0)) && ordered(seg_ind(p, 1)) && ordered(seg_ind(p, 2)) && ordered(
        seg_ind(p, 3),
    ));
    assert(equality_wf(p, eq_counters(p))) by {
        crate::sums::lemma_pow2_step(q as nat);
        let a = plain_counters();
        let b = shifted_counters();
        assert forall|k: int| 0 <= k < a.len() implies lin_wf(p, q, #[trigger] a[k]) by {
            if 1 <= k < 5 {
                assert(a[k] == lin_of(Tab::Ctr((k - 1) as usize)));
            } else if k >= 5 {
                assert(a[k] == lin_of(Tab::Base((k - 5) as usize)));
            }
        }
        assert forall|k: int| 0 <= k < b.len() implies lin_wf(p, q, #[trigger] b[k]) by {
            if 1 <= k < 5 {
                assert(b[k] == lin_plus(
                    lin_of(Tab::Ctr((k - 1) as usize)),
                    1,
                    Tab::DCtr((k - 1) as usize),
                ));
            } else if k >= 5 {
                assert(b[k] == lin_plus(
                    lin_of(Tab::Base((k - 5) as usize)),
                    1,
                    Tab::Mult((k - 5) as usize),
                ));
            }
        }
    }
    assert(equality_wf(p, eq_rows(p))) by {
        lemma_lins_of(
            p,
            cons,
            seq![Tab::RowPtr, Tab::RowCr, Tab::RowOut, Tab::RowDcr, Tab::IsLin],
        );
        lemma_lins_of(
            p,
            q,
            seq![Tab::Identity, Tab::Ctr(CTR_CR), Tab::Ctr(CTR_OUT), Tab::DCtr(CTR_CR)],
        );
    }
    assert(equality_wf(p, eq_lookups(p))) by {
        lemma_lins_of(p, lu, seq![Tab::Identity, Tab::LuOut, Tab::IsLookup]);
        lemma_lins_of(p, q, seq![Tab::Ctr(CTR_LR), Tab::Ctr(CTR_OUT), Tab::Sel(1)]);
    }
    assert(equality_wf(p, eq_entries(p))) by {
        lemma_lins_of(p, ent, seq![Tab::Row, Tab::MaxRead, Tab::EntLin]);
        lemma_lins_of(p, cons, seq![Tab::Identity, Tab::RowOut, Tab::IsLin]);
    }
    assert(equality_wf(p, eq_lookup_entries(p))) by {
        lemma_lins_of(p, lu, seq![Tab::Identity, Tab::LuOut]);
    }
    assert(equality_wf(p, eq_prefix_entries(p))) by {
        lemma_lins_of(p, pre, seq![Tab::BRow, Tab::BEntLin]);
        lemma_lins_of(p, cons, seq![Tab::Identity, Tab::IsLin]);
    }
}

proof fn lemma_more_equalities(p: ProfileView)
    requires
        profile_fits(p),
    ensures
        equality_wf(p, eq_ranges(p)),
        equality_wf(p, eq_products(p)),
        equality_wf(p, eq_outputs(p)),
        equality_wf(p, eq_types(p)),
{
    lemma_logs(p);
    let lu = log2_ceil(p.lu_line) as int;
    assert(equality_wf(p, eq_ranges(p))) by {
        lemma_lins_of(p, p.log_range, seq![Tab::Identity]);
    }
    assert(ordered(seg_ind(p, 2)) && ordered(seg_ind(p, 4)));
    assert(equality_wf(p, eq_products(p)));
    assert(equality_wf(p, eq_outputs(p)));
    assert(equality_wf(p, eq_types(p))) by {
        lemma_lins_of(p, lu, seq![Tab::Identity, Tab::Tp]);
    }
}

proof fn lemma_family_equality(p: ProfileView, f: int)
    requires
        profile_fits(p),
        0 <= f < NUM_FAMILIES,
    ensures
        equality_wf(p, eq_family(p, f)),
        block_wf(p, family_block(p, f)),
{
    lemma_logs(p);
    lemma_families();
    let q = log2_ceil(p.instr_count + 1) as int;
    let x = log2_ceil(p.x_len) as int;
    assert(ordered(fam_ind(p, f)));
    assert(equality_wf(p, eq_family(p, f))) by {
        lemma_lins_of(
            p,
            x,
            seq![
                Tab::XPtr,
                Tab::XBase,
                Tab::XCr,
                Tab::XOut,
                Tab::XAux,
                Tab::XOp(0),
                Tab::XOp(1),
                Tab::XOp(2),
                Tab::XOp(3),
                Tab::XOp(4),
                Tab::XOp(5),
            ],
        );
        lemma_lins_of(
            p,
            q,
            seq![
                Tab::Identity,
                Tab::Base(f as usize),
                Tab::Ctr(CTR_CR),
                Tab::Ctr(CTR_OUT),
                Tab::Ctr(CTR_AUX),
                Tab::Opn(0),
                Tab::Opn(1),
                Tab::Opn(2),
                Tab::Opn(3),
                Tab::Opn(4),
                Tab::Opn(5),
            ],
        );
    }
    let fam = families_of()[f];
    assert(family_wf(fam));
    assert(lin_wf(p, x, family_row(fam)));
    assert(lin_wf(p, x, family_col(p, f)));
}

proof fn lemma_expansion(p: ProfileView)
    requires
        profile_fits(p),
    ensures
        equality_wf(p, eq_expansion(p)),
{
    lemma_logs(p);
    let ent = log2_ceil(p.entry_len) as int;
    let pre = log2_ceil(p.b_pre_len) as int;
    lemma_lins_of(p, pre, seq![Tab::BRow, Tab::BCol, Tab::BVal, Tab::BPow]);
    let e = eq_expansion(p);
    assert(lins_wf(p, ent, entry_lins(p)));
    assert(block_wf(p, masked_block(p, Tab::MaskA, 0)));
    assert(block_wf(p, masked_block(p, Tab::MaskB, 1)));
    assert(block_wf(p, masked_block(p, Tab::MaskC, 2)));
    assert(block_wf(p, e.left[3]));
    assert(blocks_wf(p, e.left));
    assert forall|k: int| 0 <= k < e.right.len() implies block_wf(p, #[trigger] e.right[k]) by {
        lemma_family_equality(p, k);
        assert(e.right[k] == family_block(p, k));
    }
}

/// All the equalities are well formed.
pub proof fn lemma_equalities_wf(p: ProfileView)
    requires
        profile_fits(p),
    ensures
        forall|k: int|
            0 <= k < equalities_of(p).len() ==> equality_wf(p, #[trigger] equalities_of(p)[k]),
{
    lemma_first_equalities(p);
    lemma_more_equalities(p);
    lemma_expansion(p);
    reveal(equalities_of);
    let z = equalities_of(p);
    assert forall|k: int| 0 <= k < z.len() implies equality_wf(p, #[trigger] z[k]) by {
        if k < 10 {
            assert(k == 0 || k == 1 || k == 2 || k == 3 || k == 4 || k == 5 || k == 6 || k == 7
                || k == 8 || k == 9);
        } else if k < 22 {
            lemma_family_equality(p, k - 10);
            assert(z[k] == eq_family(p, k - 10));
        } else {
            assert(z[k] == eq_expansion(p));
        }
    }
}

} // verus!
