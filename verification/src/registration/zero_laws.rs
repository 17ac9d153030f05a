//! The vectors of a program and its circuit pass the zero checks.
use vstd::prelude::*;
use vstd::arithmetic::power2::*;
use crate::circuit::CircuitView;
use crate::field::cong;
use crate::poly::at;
use crate::replay::row_at;
use crate::sparse::suffix_group;
use crate::sumcheck::{Gate, gate_value};
use super::accepted::check_holds;
use super::cells::{lemma_cons_cells, lemma_entry_cells, lemma_instr_cells, lemma_prefix_cells};
use super::certificate::{circuit_vectors, column_of, columns_of, registrable};
use super::columns::{lemma_entry_rows, lemma_rows_len};
use super::encode::{
    EncodingView, NUM_OPCODES, NUM_OPERANDS, Opcode, counters_at, delta_at, is_bit, one_hot,
    operands_of,
};
use super::family::{
    FamilyView, families_of, family_size, family_wf, grid_size, lemma_ex_gate, lemma_families,
};
use super::relation::{
    Tab, block_gates, check_blocks, check_increments, check_masks, check_prefix_mask,
    check_prefix_slack, check_read_slack, check_selectors, check_sizes, g_add, g_coin, g_mul, g_num,
    g_sub, g_var, increment_gate, ind, joined_gates, mask_gates, program_tabs, seg_ind,
    selector_gates, sides_gate, size_gates,
};
use super::witness::{after, circuit_profile, cons_row, cons_rows, linear_at};

verus! {

/// The values of some vectors at a place.
pub proof fn lemma_row_cells(f: spec_fn(Tab) -> Seq<int>, tabs: Seq<Tab>, len: int, j: int)
    requires
        0 <= j < len,
    ensures
        row_at(columns_of(f, tabs, len), j).len() == tabs.len(),
        forall|k: int|
            0 <= k < tabs.len() ==> #[trigger] row_at(columns_of(f, tabs, len), j)[k] == column_of(
                f,
                tabs[k],
                len,
            )[j],
{
    let cols = columns_of(f, tabs, len);
    assert forall|k: int| 0 <= k < tabs.len() implies #[trigger] row_at(cols, j)[k] == column_of(
        f,
        tabs[k],
        len,
    )[j] by {
        assert(cols[k] == column_of(f, tabs[k], len));
        assert(column_of(f, tabs[k], len).len() >= len);
    }
}

/// Expressions that are zero are zero when they are joined.
pub proof fn lemma_joined_zero(x: int, gs: Seq<Gate>, k: int, v: Seq<int>, coins: Seq<int>)
    requires
        0 <= k,
        forall|i: int| k <= i < gs.len() ==> gate_value(#[trigger] gs[i], v, coins) == 0,
    ensures
        gate_value(joined_gates(x, gs, k), v, coins) == 0,
    decreases gs.len() - k,
{
    reveal_with_fuel(gate_value, 4);
    if k < gs.len() {
        lemma_joined_zero(x, gs, k + 1, v, coins);
        let r = coins[(x as usize) as int];
        assert(r * 0 == 0);
    }
}

proof fn lemma_bit(x: int)
    requires
        is_bit(x),
    ensures
        x * (x - 1) == 0,
{
    if x == 0 {
        assert(0 * (0 - 1) == 0);
    } else {
        assert(1 * 0 == 0);
    }
}

/// The selectors of an instruction.
proof fn lemma_selectors(e: EncodingView, i: int)
    requires
        one_hot(e, i),
    ensures
        forall|j: int|
            0 <= j < NUM_OPCODES ==> #[trigger] e.sel[j][i] == if e.opcode[i].number() == j {
                1int
            } else {
                0
            },
{
}

/// The selectors are one-hot.
pub proof fn lemma_check_selectors(e: EncodingView, c: CircuitView, chals: Seq<int>)
    requires
        registrable(e, c),
    ensures
        check_holds(circuit_vectors(e, c), check_selectors(circuit_profile(e, c)), chals),
{
    let f = circuit_vectors(e, c);
    let p = circuit_profile(e, c);
    let x = check_selectors(p);
    let q = e.opcode.len() as int;
    let len = pow2(x.log_len as nat) as int;
    let gs = selector_gates();
    assert forall|j: int| 0 <= j < len implies cong(
        gate_value(x.gate, #[trigger] row_at(columns_of(f, x.tables, len), j), chals),
        0,
    ) by {
        let v = row_at(columns_of(f, x.tables, len), j);
        lemma_row_cells(f, x.tables, len, j);
        lemma_instr_cells(e, c, j);
        assert(v[0] == column_of(f, Tab::Sel(0), len)[j]);
        assert(v[1] == column_of(f, Tab::Sel(1), len)[j]);
        assert(v[2] == column_of(f, Tab::Sel(2), len)[j]);
        assert(v[3] == column_of(f, Tab::Sel(3), len)[j]);
        assert(v[4] == column_of(f, Tab::Sel(4), len)[j]);
        assert(v[5] == column_of(f, ind(0, q), len)[j]);
        if j < q {
            assert(one_hot(e, j));
        }
        lemma_bit(v[0]);
        lemma_bit(v[1]);
        lemma_bit(v[2]);
        lemma_bit(v[3]);
        lemma_bit(v[4]);
        reveal_with_fuel(gate_value, 7);
        assert forall|i: int| 0 <= i < gs.len() implies gate_value(#[trigger] gs[i], v, chals)
            == 0 by {
            assert(i == 0 || i == 1 || i == 2 || i == 3 || i == 4 || i == 5);
        }
        lemma_joined_zero(0, gs, 0, v, chals);
    }
}

pub proof fn lemma_increment_terms(s: Seq<int>, o: Seq<int>, k: Opcode)
    requires
        s.len() == 5,
        forall|j: int| 0 <= j < 5 ==> #[trigger] s[j] == if k.number() == j {
            1int
        } else {
            0
        },
    ensures
        ({
            let side = o[2] + o[3] - 1;
            let d = super::encode::deltas_of(k, o);
            &&& s[0] + s[1] + s[2] + s[3] * o[0] * o[2] + s[4] * o[1] * side * side == d.out
            &&& s[2] + s[3] * o[1] + s[4] * o[0] == d.aux
            &&& s[0] + s[2] + s[3] * (o[1] + 1) + s[4] * (o[0] + 1) == d.cr
            &&& s[1] + (s[2] + s[2]) == d.lr
        }),
{
    let side = o[2] + o[3] - 1;
    let (s3, s4, o0, o1, o2) = (s[3], s[4], o[0], o[1], o[2]);
    assert(s[0] == s[0] && s[1] == s[1] && s[2] == s[2] && s[3] == s3 && s[4] == s4);
    if k is MatMult {
        assert(s3 == 1 && s4 == 0);
        assert(1 * o0 * o2 == o0 * o2);
        assert(0 * o1 * side * side == 0) by (nonlinear_arith);
    } else if k is Conv {
        assert(s3 == 0 && s4 == 1);
        assert(0 * o0 * o2 == 0) by (nonlinear_arith);
        assert(1 * o1 * side * side == o1 * side * side);
    } else {
        assert(s3 == 0 && s4 == 0);
        assert(0 * o0 * o2 == 0) by (nonlinear_arith);
        assert(0 * o1 * side * side == 0) by (nonlinear_arith);
    }
}

/// The value of the expression for what the counters grow by.
pub proof fn lemma_increment_gate(v: Seq<int>, chals: Seq<int>)
    ensures
        ({
            let side = v[7] + v[8] - 1;
            let d_out = v[0] + v[1] + v[2] + v[3] * v[5] * v[7] + v[4] * v[6] * side * side;
            let d_aux = v[2] + v[3] * v[6] + v[4] * v[5];
            let d_cr = v[0] + v[2] + v[3] * (v[6] + 1) + v[4] * (v[5] + 1);
            let d_lr = v[1] + (v[2] + v[2]);
            gate_value(increment_gate(), v, chals) == chals[1] * (v[11] - d_out) + chals[2] * (v[12]
                - d_aux) + chals[3] * (v[13] - d_cr) + chals[4] * (v[14] - d_lr)
        }),
{
    reveal_with_fuel(gate_value, 3);
    let side = g_sub(g_add(g_var(7), g_var(8)), g_num(1));
    assert(gate_value(side, v, chals) == v[7] + v[8] - 1);
    let plain = g_add(g_add(g_var(0), g_var(1)), g_var(2));
    assert(gate_value(plain, v, chals) == v[0] + v[1] + v[2]);
    let product = g_mul(g_mul(g_var(3), g_var(5)), g_var(7));
    assert(gate_value(product, v, chals) == v[3] * v[5] * v[7]);
    let plane = g_mul(g_mul(g_var(4), g_var(6)), side);
    assert(gate_value(plane, v, chals) == v[4] * v[6] * (v[7] + v[8] - 1));
    let d_out = g_add(g_add(plain, product), g_mul(plane, side));
    assert(gate_value(d_out, v, chals) == gate_value(plain, v, chals) + gate_value(
        product,
        v,
        chals,
    ) + gate_value(plane, v, chals) * gate_value(side, v, chals));
    let d_aux = g_add(
        g_add(g_var(2), g_mul(g_var(3), g_var(6))),
        g_mul(g_var(4), g_var(5)),
    );
    assert(gate_value(d_aux, v, chals) == v[2] + v[3] * v[6] + v[4] * v[5]) by {
        assert(gate_value(g_mul(g_var(3), g_var(6)), v, chals) == v[3] * v[6]);
    }
    let d_cr = g_add(
        g_add(g_add(g_var(0), g_var(2)), g_mul(g_var(3), g_add(g_var(6), g_num(1)))),
        g_mul(g_var(4), g_add(g_var(5), g_num(1))),
    );
    assert(gate_value(d_cr, v, chals) == v[0] + v[2] + v[3] * (v[6] + 1) + v[4] * (v[5] + 1)) by {
        let a = g_mul(g_var(3), g_add(g_var(6), g_num(1)));
        assert(gate_value(a, v, chals) == v[3] * (v[6] + 1));
        let b = g_mul(g_var(4), g_add(g_var(5), g_num(1)));
        assert(gate_value(b, v, chals) == v[4] * (v[5] + 1));
        assert(gate_value(g_add(g_var(0), g_var(2)), v, chals) == v[0] + v[2]);
    }
    let d_lr = g_add(g_var(1), g_add(g_var(2), g_var(2)));
    assert(gate_value(d_lr, v, chals) == v[1] + (v[2] + v[2]));
    let a = g_mul(g_coin(1), g_sub(g_var(11), d_out));
    assert(gate_value(a, v, chals) == chals[1] * (v[11] - gate_value(d_out, v, chals)));
    let b = g_mul(g_coin(2), g_sub(g_var(12), d_aux));
    assert(gate_value(b, v, chals) == chals[2] * (v[12] - gate_value(d_aux, v, chals)));
    let c = g_mul(g_coin(3), g_sub(g_var(13), d_cr));
    assert(gate_value(c, v, chals) == chals[3] * (v[13] - gate_value(d_cr, v, chals)));
    let d = g_mul(g_coin(4), g_sub(g_var(14), d_lr));
    assert(gate_value(d, v, chals) == chals[4] * (v[14] - gate_value(d_lr, v, chals)));
    assert(increment_gate() == g_add(g_add(g_add(a, b), c), d));
}

/// What the counters grow by is what the kinds and operands say.
#[verifier::rlimit(40)]
#[verifier::spinoff_prover]
pub proof fn lemma_check_increments(e: EncodingView, c: CircuitView, chals: Seq<int>)
    requires
        registrable(e, c),
    ensures
        check_holds(circuit_vectors(e, c), check_increments(circuit_profile(e, c)), chals),
{
    let f = circuit_vectors(e, c);
    let p = circuit_profile(e, c);
    let x = check_increments(p);
    let q = e.opcode.len() as int;
    let len = pow2(x.log_len as nat) as int;
    assert forall|j: int| 0 <= j < len implies cong(
        gate_value(x.gate, #[trigger] row_at(columns_of(f, x.tables, len), j), chals),
        0,
    ) by {
        let v = row_at(columns_of(f, x.tables, len), j);
        lemma_row_cells(f, x.tables, len, j);
        lemma_instr_cells(e, c, j);
        assert(v[0] == column_of(f, Tab::Sel(0), len)[j]);
        assert(v[1] == column_of(f, Tab::Sel(1), len)[j]);
        assert(v[2] == column_of(f, Tab::Sel(2), len)[j]);
        assert(v[3] == column_of(f, Tab::Sel(3), len)[j]);
        assert(v[4] == column_of(f, Tab::Sel(4), len)[j]);
        assert(v[5] == column_of(f, Tab::Opn(0), len)[j]);
        assert(v[6] == column_of(f, Tab::Opn(1), len)[j]);
        assert(v[7] == column_of(f, Tab::Opn(2), len)[j]);
        assert(v[8] == column_of(f, Tab::Opn(3), len)[j]);
        assert(v[11] == column_of(f, Tab::DCtr(0), len)[j]);
        assert(v[12] == column_of(f, Tab::DCtr(1), len)[j]);
        assert(v[13] == column_of(f, Tab::DCtr(2), len)[j]);
        assert(v[14] == column_of(f, Tab::DCtr(3), len)[j]);
        let side = v[7] + v[8] - 1;
        let d_out = v[0] + v[1] + v[2] + v[3] * v[5] * v[7] + v[4] * v[6] * side * side;
        let d_aux = v[2] + v[3] * v[6] + v[4] * v[5];
        let d_cr = v[0] + v[2] + v[3] * (v[6] + 1) + v[4] * (v[5] + 1);
        let d_lr = v[1] + (v[2] + v[2]);
        assert(v[11] == d_out && v[12] == d_aux && v[13] == d_cr && v[14] == d_lr) by {
            if j < q {
                assert(one_hot(e, j));
                lemma_selectors(e, j);
                let s = seq![v[0], v[1], v[2], v[3], v[4]];
                let o = operands_of(e, j);
                assert(o[0] == v[5] && o[1] == v[6] && o[2] == v[7] && o[3] == v[8]);
                lemma_increment_terms(s, o, e.opcode[j]);
            } else {
                assert(0 * v[6] * side * side == 0) by (nonlinear_arith);
                assert(0 * v[5] * v[7] == 0) by (nonlinear_arith);
            }
        }
        lemma_increment_gate(v, chals);
        assert(chals[1] * 0 == 0 && chals[2] * 0 == 0 && chals[3] * 0 == 0 && chals[4] * 0 == 0);
    }
}

/// The product of the sides of a grid, read from tables.
pub proof fn lemma_sides_gate(
    f: FamilyView,
    base: int,
    n: int,
    v: Seq<int>,
    coins: Seq<int>,
    o: Seq<int>,
)
    requires
        family_wf(f),
        0 <= n <= f.radices.len(),
        0 <= base <= 100,
        o == Seq::new(NUM_OPERANDS as nat, |s: int| v[base + s]),
    ensures
        gate_value(sides_gate(f, base, n), v, coins) == grid_size(f, o, n),
    decreases n,
{
    if n > 0 {
        lemma_sides_gate(f, base, n - 1, v, coins, o);
        lemma_ex_gate(f.radices[n - 1], base, v, coins, 200, 0);
    }
}

/// The numbers of entries in the families are what the operands say.
#[verifier::rlimit(40)]
#[verifier::spinoff_prover]
pub proof fn lemma_check_sizes(e: EncodingView, c: CircuitView, chals: Seq<int>)
    requires
        registrable(e, c),
    ensures
        check_holds(circuit_vectors(e, c), check_sizes(circuit_profile(e, c)), chals),
{
    let f = circuit_vectors(e, c);
    let p = circuit_profile(e, c);
    let x = check_sizes(p);
    let q = e.opcode.len() as int;
    let len = pow2(x.log_len as nat) as int;
    let gs = size_gates();
    lemma_families();
    assert forall|j: int| 0 <= j < len implies cong(
        gate_value(x.gate, #[trigger] row_at(columns_of(f, x.tables, len), j), chals),
        0,
    ) by {
        let v = row_at(columns_of(f, x.tables, len), j);
        lemma_row_cells(f, x.tables, len, j);
        lemma_instr_cells(e, c, j);
        let o = Seq::new(NUM_OPERANDS as nat, |s: int| v[NUM_OPCODES + s]);
        assert(program_tabs().len() == 11);
        if j < q {
            assert(one_hot(e, j));
            lemma_selectors(e, j);
            assert forall|s: int| 0 <= s < NUM_OPERANDS implies o[s] == operands_of(e, j)[s] by {
                assert(x.tables[NUM_OPCODES + s] == Tab::Opn(s as usize));
            }
            assert(o =~= operands_of(e, j));
        }
        assert forall|k: int| 0 <= k < gs.len() implies gate_value(#[trigger] gs[k], v, chals)
            == 0 by {
            let fam = families_of()[k];
            let n = fam.opcode.number();
            lemma_sides_gate(fam, NUM_OPCODES as int, fam.radices.len() as int, v, chals, o);
            assert(x.tables[11 + k] == Tab::Mult(k as usize));
            assert(v[11 + k] == column_of(f, Tab::Mult(k as usize), len)[j]);
            assert(x.tables[n] == Tab::Sel(n as usize));
            assert(v[n] == column_of(f, Tab::Sel(n as usize), len)[j]);
            let size = family_size(fam, o);
            reveal_with_fuel(gate_value, 3);
            assert(gate_value(gs[k], v, chals) == v[11 + k] - v[n] * size);
            assert(1 * size == size);
            assert(0 * size == 0);
            if j < q {
                if fam.opcode == e.opcode[j] {
                    assert(e.sel[n][j] == 1);
                } else {
                    assert(e.opcode[j].number() != n);
                    assert(e.sel[n][j] == 0);
                }
            }
        }
        lemma_joined_zero(6, gs, 0, v, chals);
    }
}

/// What is left before the limits of the reads is what it should be.
#[verifier::rlimit(40)]
#[verifier::spinoff_prover]
pub proof fn lemma_check_read_slack(e: EncodingView, c: CircuitView, chals: Seq<int>)
    requires
        registrable(e, c),
    ensures
        check_holds(circuit_vectors(e, c), check_read_slack(circuit_profile(e, c)), chals),
{
    let f = circuit_vectors(e, c);
    let p = circuit_profile(e, c);
    let x = check_read_slack(p);
    let len = pow2(x.log_len as nat) as int;
    let n = suffix_group(c).row.len() as int;
    lemma_entry_rows(c);
    crate::sparse::lemma_suffix_group(c, 1);
    assert forall|j: int| 0 <= j < len implies cong(
        gate_value(x.gate, #[trigger] row_at(columns_of(f, x.tables, len), j), chals),
        0,
    ) by {
        let v = row_at(columns_of(f, x.tables, len), j);
        lemma_row_cells(f, x.tables, len, j);
        lemma_entry_cells(e, c, j);
        assert(v[0] == column_of(f, Tab::Diff, len)[j]);
        assert(v[1] == column_of(f, Tab::MaxRead, len)[j]);
        assert(v[2] == column_of(f, Tab::Col, len)[j]);
        assert(v[3] == column_of(f, seg_ind(p, 0), len)[j]);
        assert(v[4] == column_of(f, seg_ind(p, 1), len)[j]);
        assert(v[5] == column_of(f, seg_ind(p, 3), len)[j]);
        assert(v[6] == column_of(f, Tab::MaskA, len)[j]);
        assert(v[7] == column_of(f, Tab::MaskB, len)[j]);
        let plain = v[3] + v[4] + v[5] - v[6] - v[7];
        let left = v[1] - p.weight_len - v[2] - 1;
        reveal_with_fuel(gate_value, 7);
        assert(gate_value(x.gate, v, chals) == v[0] - plain * left);
        assert(0 * left == 0 && 1 * left == left);
        if j < n {
            lemma_linear_bit(e, c, j);
        }
        assert(v[0] == plain * left);
    }
}

/// An entry is in a row of a product or a convolution, or not.
pub proof fn lemma_linear_bit(e: EncodingView, c: CircuitView, t: int)
    requires
        registrable(e, c),
        0 <= t < suffix_group(c).row.len(),
    ensures
        is_bit(linear_at(e, c, t)),
{
    lemma_entry_rows(c);
    if t < after(c, 2) {
        let r = suffix_group(c).row[t];
        lemma_rows_len(e, e.opcode.len() as int);
        crate::sumcheck::lemma_log2_ceil(e.cons_line);
        lemma_cons_row(e, e.opcode.len() as int, r);
    }
}

/// Where a constraint row stands in the block of its instruction.
pub proof fn lemma_cons_row(e: EncodingView, n: int, x: int) -> (at: (int, int))
    requires
        super::columns::encoding_ready(e),
        0 <= n <= e.opcode.len(),
        0 <= x < cons_rows(e, n).len(),
    ensures
        0 <= at.0 < n,
        0 <= at.1 < delta_at(e, at.0).cr,
        x == e.cr[at.0] + at.1,
        cons_rows(e, n)[x] == cons_row(e, at.0, at.1),
    decreases n,
{
    lemma_rows_len(e, n - 1);
    assert(e.out[n - 1] == counters_at(e, n - 1).out);
    let before = cons_rows(e, n - 1).len() as int;
    if x < before {
        lemma_cons_row(e, n - 1, x)
    } else {
        (n - 1, x - before)
    }
}

/// What is left before the end of the parameters is what it should be.
pub proof fn lemma_check_prefix_slack(e: EncodingView, c: CircuitView, chals: Seq<int>)
    requires
        registrable(e, c),
    ensures
        check_holds(circuit_vectors(e, c), check_prefix_slack(circuit_profile(e, c)), chals),
{
    let f = circuit_vectors(e, c);
    let p = circuit_profile(e, c);
    let x = check_prefix_slack(p);
    let len = pow2(x.log_len as nat) as int;
    crate::sparse::lemma_prefix_group(c, 1);
    assert forall|j: int| 0 <= j < len implies cong(
        gate_value(x.gate, #[trigger] row_at(columns_of(f, x.tables, len), j), chals),
        0,
    ) by {
        let v = row_at(columns_of(f, x.tables, len), j);
        lemma_row_cells(f, x.tables, len, j);
        lemma_prefix_cells(e, c, j);
        assert(v[0] == column_of(f, Tab::DiffPre, len)[j]);
        assert(v[1] == column_of(f, Tab::BCol, len)[j]);
        assert(v[2] == column_of(f, ind(0, p.b_pre_len), len)[j]);
        let left = p.weight_len - 1 - v[1];
        reveal_with_fuel(gate_value, 5);
        assert(gate_value(x.gate, v, chals) == v[0] - v[2] * left);
        assert(0 * left == 0 && 1 * left == left);
    }
}

/// The masks of the matrices are what they should be.
#[verifier::rlimit(40)]
#[verifier::spinoff_prover]
pub proof fn lemma_check_masks(e: EncodingView, c: CircuitView, chals: Seq<int>)
    requires
        registrable(e, c),
    ensures
        check_holds(circuit_vectors(e, c), check_masks(circuit_profile(e, c)), chals),
{
    let f = circuit_vectors(e, c);
    let p = circuit_profile(e, c);
    let x = check_masks(p);
    let len = pow2(x.log_len as nat) as int;
    let gs = mask_gates();
    lemma_entry_rows(c);
    crate::sparse::lemma_suffix_group(c, 1);
    assert forall|j: int| 0 <= j < len implies cong(
        gate_value(x.gate, #[trigger] row_at(columns_of(f, x.tables, len), j), chals),
        0,
    ) by {
        let v = row_at(columns_of(f, x.tables, len), j);
        lemma_row_cells(f, x.tables, len, j);
        lemma_entry_cells(e, c, j);
        assert(v[0] == column_of(f, Tab::MaskA, len)[j]);
        assert(v[1] == column_of(f, Tab::MaskB, len)[j]);
        assert(v[2] == column_of(f, Tab::MaskC, len)[j]);
        assert(v[3] == column_of(f, Tab::EntLin, len)[j]);
        assert(v[4] == column_of(f, seg_ind(p, 0), len)[j]);
        assert(v[5] == column_of(f, seg_ind(p, 1), len)[j]);
        assert(v[6] == column_of(f, seg_ind(p, 2), len)[j]);
        let l = v[3];
        assert(0 * l == 0 && 1 * l == l);
        reveal_with_fuel(gate_value, 4);
        assert forall|i: int| 0 <= i < gs.len() implies gate_value(#[trigger] gs[i], v, chals)
            == 0 by {
            assert(i == 0 || i == 1 || i == 2);
        }
        lemma_joined_zero(5, gs, 0, v, chals);
    }
}

/// The mask of the prefix entries is what it should be.
pub proof fn lemma_check_prefix_mask(e: EncodingView, c: CircuitView, chals: Seq<int>)
    requires
        registrable(e, c),
    ensures
        check_holds(circuit_vectors(e, c), check_prefix_mask(circuit_profile(e, c)), chals),
{
    let f = circuit_vectors(e, c);
    let p = circuit_profile(e, c);
    let x = check_prefix_mask(p);
    let len = pow2(x.log_len as nat) as int;
    crate::sparse::lemma_prefix_group(c, 1);
    assert forall|j: int| 0 <= j < len implies cong(
        gate_value(x.gate, #[trigger] row_at(columns_of(f, x.tables, len), j), chals),
        0,
    ) by {
        let v = row_at(columns_of(f, x.tables, len), j);
        lemma_row_cells(f, x.tables, len, j);
        lemma_prefix_cells(e, c, j);
        assert(v[0] == column_of(f, Tab::MaskPre, len)[j]);
        assert(v[1] == column_of(f, Tab::BEntLin, len)[j]);
        assert(v[2] == column_of(f, ind(0, p.b_pre_len), len)[j]);
        let l = v[1];
        assert(0 * l == 0 && 1 * l == l);
        reveal_with_fuel(gate_value, 4);
    }
}

/// The constraint rows are within the blocks of their instructions.
#[verifier::rlimit(40)]
#[verifier::spinoff_prover]
pub proof fn lemma_check_blocks(e: EncodingView, c: CircuitView, chals: Seq<int>)
    requires
        registrable(e, c),
    ensures
        check_holds(circuit_vectors(e, c), check_blocks(circuit_profile(e, c)), chals),
{
    let f = circuit_vectors(e, c);
    let p = circuit_profile(e, c);
    let x = check_blocks(p);
    let len = pow2(x.log_len as nat) as int;
    let gs = block_gates();
    let q = e.opcode.len() as int;
    assert forall|j: int| 0 <= j < len implies cong(
        gate_value(x.gate, #[trigger] row_at(columns_of(f, x.tables, len), j), chals),
        0,
    ) by {
        let v = row_at(columns_of(f, x.tables, len), j);
        lemma_row_cells(f, x.tables, len, j);
        lemma_cons_cells(e, c, j);
        assert(v[0] == column_of(f, Tab::RowSlackLo, len)[j]);
        assert(v[1] == column_of(f, Tab::RowSlackHi, len)[j]);
        assert(v[2] == column_of(f, Tab::RowCr, len)[j]);
        assert(v[3] == column_of(f, Tab::RowDcr, len)[j]);
        assert(v[4] == column_of(f, Tab::Identity, len)[j]);
        assert(v[5] == column_of(f, ind(0, p.cons_line), len)[j]);
        if j < e.cons_line {
            let at = lemma_cons_row(e, q, j);
        }
        let a = v[4] - v[2];
        let b = v[2] + v[3] - 1 - v[4];
        assert(0 * a == 0 && 1 * a == a && 0 * b == 0 && 1 * b == b);
        reveal_with_fuel(gate_value, 6);
        assert forall|i: int| 0 <= i < gs.len() implies gate_value(#[trigger] gs[i], v, chals)
            == 0 by {
            assert(i == 0 || i == 1);
        }
        lemma_joined_zero(5, gs, 0, v, chals);
    }
}

} // verus!
