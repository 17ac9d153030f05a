//! What the vectors of a compiled program leave is within the range.
use vstd::prelude::*;
use vstd::arithmetic::power2::*;
use crate::circuit::plain_row;
use crate::compiler::{a_rows, b_rows, d_rows};
use crate::execution::lemma_row_reads;
use crate::instruction::Instruction;
use crate::sparse::{
    below, lemma_prefix_group, lemma_suffix_group, not_empty, prefix_group, quads, suffix_group,
};
use crate::sumcheck::lemma_log2_ceil;
use super::columns::{lemma_entry_rows, lemma_ready, lemma_rows_len};
use super::compiled_laws::{
    Compiled, lemma_instr, lemma_instr_rows, lemma_linear_row, lemma_lu_row,
};
use super::encode::operands_of;
use super::family::{
    MAX_DIGITS, NUM_FAMILIES, convolution_families, ex_value, families_of, lemma_families,
    product_families,
};
use super::family_laws::{lemma_entry_coordinates, lemma_x_row};
use super::matrix_laws::{lemma_quad_source, lemma_segment, lemma_segment_len};
use super::registrar::slacks_fit;
use super::witness::{
    RowInfo, after, circuit_profile, cons_column, cons_rows, digit_column, entry_column,
    is_lin_column, left_column, linear_at, lu_out_column, prefix_column, row_out_column, sides_of,
    slack_at, slacks_of, x_rows,
};
use super::zero_laws::lemma_cons_row;

verus! {

/// What the first two matrices read in plain rows stands before what the instruction
/// writes.
proof fn lemma_plain_reads(w: Compiled, r: int)
    requires
        w.ready(),
        0 <= r < w.encoding().cons_line,
        is_lin_column(w.encoding())[r] == 0,
    ensures
        0 <= row_out_column(w.encoding())[r] <= w.encoding().z_len,
        forall|j: int|
            0 <= j < w.circuit().a[r].len() ==> (#[trigger] w.circuit().a[r][j]).col
                < row_out_column(w.encoding())[r],
        forall|j: int|
            0 <= j < w.circuit().b[r].len() ==> (#[trigger] w.circuit().b[r][j]).col
                < row_out_column(w.encoding())[r],
{
    let e = w.encoding();
    let c = w.circuit();
    let q = w.instrs.len() as int;
    let wl = w.weights.len() as int;
    lemma_rows_len(e, q);
    let at = lemma_cons_row(e, q, r);
    let i = at.0;
    let out = e.out[i];
    lemma_instr(w, i);
    lemma_ready(e, i);
    lemma_instr_rows(w, i);
    lemma_linear_row(w, i, at.1);
    assert(row_out_column(e)[r] == out);
    assert(c.a[e.cr[i] + at.1] == a_rows(w.instrs[i], out, e.aux[i])[at.1]);
    assert(c.b[e.cr[i] + at.1] == b_rows(w.instrs[i], out, e.aux[i])[at.1]);
    match w.instrs[i] {
        Instruction::AddMult { input1, input2 } => {
            lemma_row_reads(i as usize, input1@, out, w.aux_start, wl, 0);
            lemma_row_reads(i as usize, input2@, out, w.aux_start, 0, 0);
            assert(c.a[r] == plain_row(input1@));
            assert(c.b[r] == plain_row(input2@));
        },
        Instruction::Div { input1, input2, divisor } => {
            lemma_row_reads(i as usize, input1@, out, w.aux_start, wl, 0);
            lemma_row_reads(i as usize, input2@, out, w.aux_start, 0, 0);
            assert(c.a[r] == plain_row(input1@));
            assert(c.b[r] == plain_row(input2@));
        },
        _ => {},
    }
}

/// What a lookup reads stands before what it writes.
proof fn lemma_lookup_reads(w: Compiled, r: int)
    requires
        w.ready(),
        0 <= r < w.encoding().lu_line,
    ensures
        0 <= lu_out_column(w.encoding())[r] <= w.encoding().z_len,
        forall|j: int|
            0 <= j < w.circuit().d[r].len() ==> (#[trigger] w.circuit().d[r][j]).col
                < lu_out_column(w.encoding())[r],
{
    let e = w.encoding();
    let c = w.circuit();
    let q = w.instrs.len() as int;
    let wl = w.weights.len() as int;
    lemma_rows_len(e, q);
    let at = lemma_lu_row(e, q, r);
    let i = at.0;
    let out = e.out[i];
    lemma_instr(w, i);
    lemma_ready(e, i);
    lemma_instr_rows(w, i);
    assert(lu_out_column(e)[r] == out);
    assert(c.d[e.lr[i] + at.1] == d_rows(w.instrs[i], out, e.aux[i])[at.1]);
    match w.instrs[i] {
        Instruction::Lookup { input, tp } => {
            lemma_row_reads(i as usize, input@, out, w.aux_start, wl, 0);
            assert(c.d[r] == plain_row(input@));
        },
        _ => {},
    }
}

/// What is left between a read and its limit is within the range.
proof fn lemma_read_slack(w: Compiled, t: int)
    requires
        w.ready(),
        0 <= t < suffix_group(w.circuit()).row.len(),
    ensures
        0 <= slack_at(w.encoding(), w.circuit(), t) <= w.encoding().z_len,
{
    let e = w.encoding();
    let c = w.circuit();
    let gr = suffix_group(c);
    let top = usize::MAX as int;
    lemma_entry_rows(c);
    lemma_suffix_group(c, 1);
    lemma_segment_len(c, 0);
    lemma_segment_len(c, 1);
    lemma_segment_len(c, 2);
    lemma_segment_len(c, 3);
    lemma_log2_ceil(e.cons_line);
    lemma_log2_ceil(e.lu_line);
    lemma_ready_sizes(w);
    if t < after(c, 0) {
        lemma_segment(c, 0, t);
        let at = lemma_quad_source(c.a, c.weight_len, top, c.a.len() as int, t);
        if linear_at(e, c, t) == 0 {
            lemma_plain_reads(w, at.0);
            assert(c.a[at.0][at.1].col < row_out_column(e)[at.0]);
        }
    } else if t < after(c, 1) {
        let k = t - after(c, 0);
        lemma_segment(c, 1, k);
        let at = lemma_quad_source(c.b, c.weight_len, top, c.b.len() as int, k);
        if linear_at(e, c, t) == 0 {
            lemma_plain_reads(w, at.0);
            assert(c.b[at.0][at.1].col < row_out_column(e)[at.0]);
        }
    } else if after(c, 2) <= t < after(c, 3) {
        let k = t - after(c, 2);
        lemma_segment(c, 3, k);
        let at = lemma_quad_source(c.d, c.weight_len, top, c.d.len() as int, k);
        lemma_lookup_reads(w, at.0);
        assert(c.d[at.0][at.1].col < lu_out_column(e)[at.0]);
    }
}

proof fn lemma_ready_sizes(w: Compiled)
    requires
        w.ready(),
    ensures
        0 <= w.encoding().z_len,
        w.weights.len() <= w.encoding().z_len,
{
    let e = w.encoding();
    super::encode::lemma_counters(e, 0, e.opcode.len() as int);
}

/// What is left between an entry and the end of the parameters is within the range.
proof fn lemma_prefix_slack(w: Compiled, t: int)
    requires
        w.ready(),
        w.weights.len() > 0,
        0 <= t < prefix_group(w.circuit()).row.len(),
    ensures
        0 <= prefix_group(w.circuit()).col[t] < w.weights.len(),
{
    let c = w.circuit();
    let wl = w.weights.len() as int;
    reveal(prefix_group);
    lemma_prefix_group(c, 1);
    let all = quads(c.b, 0, wl, c.b.len() as int);
    if all.len() == 0 {
        assert(not_empty(all)[0].col == 0);
    } else {
        assert(not_empty(all) == all);
        let at = lemma_quad_source(c.b, 0, wl, c.b.len() as int, t);
    }
}

/// A factor of a product of positive numbers is no more than the product.
proof fn lemma_factor(a: int, b: int)
    requires
        a >= 1,
        b >= 1,
    ensures
        a <= a * b,
        b <= a * b,
        a * b >= 1,
{
    assert(a <= a * b && b <= a * b && a * b >= 1) by (nonlinear_arith)
        requires
            a >= 1,
            b >= 1,
    ;
}

/// The operands that are sides of grids are no more than the number of cells.
proof fn lemma_sizes(w: Compiled, i: int)
    requires
        w.ready(),
        0 <= i < w.instrs.len(),
    ensures
        ({
            let o = operands_of(w.encoding(), i);
            let z = w.encoding().z_len;
            &&& w.instrs[i] is MatMult ==> o[0] <= z && o[1] <= z && o[2] <= z
            &&& w.instrs[i] is Conv ==> o[0] <= z && o[1] <= z && o[2] <= z && o[3] <= z && o[2]
                + o[3] - 1 <= z
        }),
{
    let e = w.encoding();
    lemma_instr(w, i);
    lemma_ready(e, i);
    match w.instrs[i] {
        Instruction::MatMult { m, n, k, start1, start2 } => {
            lemma_factor(n as int, m as int);
            lemma_factor(n as int, k as int);
        },
        Instruction::Conv { n, m, in_channels, out_channels, start1, start2 } => {
            let side = n + m - 1;
            lemma_factor(n as int, n as int);
            lemma_factor(in_channels as int, n * n);
            lemma_factor(m as int, m as int);
            lemma_factor(out_channels as int, m * m);
            lemma_factor(in_channels as int, out_channels * (m * m));
            lemma_factor(out_channels as int, side);
            lemma_factor(out_channels * side, side);
        },
        _ => {},
    }
}

/// The sides of the grids are no more than the number of cells, or one.
proof fn lemma_grid_sides(w: Compiled, k: int, i: int)
    requires
        w.ready(),
        0 <= i < w.instrs.len(),
        0 <= k < families_of().len(),
        families_of()[k].opcode == w.encoding().opcode[i],
    ensures
        forall|j: int|
            0 <= j < families_of()[k].radices.len() ==> #[trigger] sides_of(
                families_of()[k],
                operands_of(w.encoding(), i),
            )[j] <= w.encoding().z_len + 1,
{
    let e = w.encoding();
    let o = operands_of(e, i);
    lemma_instr(w, i);
    lemma_sizes(w, i);
    lemma_ready_sizes(w);
    reveal_with_fuel(ex_value, 3);
    let f = families_of()[k];
    let p = product_families();
    let v = convolution_families();
    if k < 6 {
        assert(f == p[k]);
        assert(k == 0 || k == 1 || k == 2 || k == 3 || k == 4 || k == 5);
    } else {
        assert(f == v[k - 6]);
        let m = k - 6;
        assert(m == 0 || m == 1 || m == 2 || m == 3 || m == 4 || m == 5);
    }
}

/// A coordinate and what is left of its side are within the range.
proof fn lemma_digit_slacks(w: Compiled, x: int, j: int)
    requires
        w.ready(),
        0 <= x < x_rows(w.encoding(), NUM_FAMILIES as int).len(),
        0 <= j < MAX_DIGITS,
    ensures
        ({
            let r = x_rows(w.encoding(), NUM_FAMILIES as int)[x];
            &&& 0 <= r.digits[j] <= w.encoding().z_len
            &&& 0 <= r.slacks[j] <= w.encoding().z_len
        }),
{
    let e = w.encoding();
    lemma_families();
    lemma_ready_sizes(w);
    let at = lemma_x_row(e, NUM_FAMILIES as int, x);
    lemma_entry_coordinates(e, at.0, at.1, at.2);
    lemma_grid_sides(w, at.0, at.1);
    let f = families_of()[at.0];
    let sides = sides_of(f, operands_of(e, at.1));
    if j < sides.len() {
        assert(sides[j] <= e.z_len + 1);
    }
}

/// What the vectors of a compiled program leave is within the range: between its reads and
/// what its instructions write, between its rows and the ends of their blocks, and between
/// coordinates and the sides of their grids. So its registration is not refused for a
/// place that is out of range.
#[verifier::rlimit(40)]
#[verifier::spinoff_prover]
pub proof fn law_slacks(w: Compiled)
    requires
        w.ready(),
        w.weights.len() > 0,
    ensures
        slacks_fit(w.encoding(), w.circuit()),
{
    let e = w.encoding();
    let c = w.circuit();
    let p = circuit_profile(e, c);
    let n = pow2(p.log_range as nat) as int;
    lemma_log2_ceil(e.z_len + 2);
    lemma_ready_sizes(w);
    assert(n >= e.z_len + 2);
    let xl = p.x_len;
    let s0 = entry_column(c, |t: int| slack_at(e, c, t));
    assert(below(s0, n)) by {
        assert forall|t: int| 0 <= t < s0.len() implies 0 <= #[trigger] s0[t] < n by {
            if t < suffix_group(c).row.len() {
                lemma_read_slack(w, t);
            }
        }
    }
    let s1 = prefix_column(c, |t: int| e.weight_len - 1 - prefix_group(c).col[t]);
    assert(below(s1, n)) by {
        assert forall|t: int| 0 <= t < s1.len() implies 0 <= #[trigger] s1[t] < n by {
            if t < prefix_group(c).row.len() {
                lemma_prefix_slack(w, t);
            }
        }
    }
    let s2 = cons_column(e, |r: RowInfo| r.lo);
    let s3 = cons_column(e, |r: RowInfo| r.hi);
    lemma_row_slacks(w, n);
    let d = |j: int| digit_column(e, xl, j);
    let l = |j: int| left_column(e, xl, j);
    lemma_family_slacks(w, n, 0);
    lemma_family_slacks(w, n, 1);
    lemma_family_slacks(w, n, 2);
    lemma_family_slacks(w, n, 3);
    lemma_below_join(s0, s1, n);
    lemma_below_join(s0 + s1, s2, n);
    lemma_below_join(s0 + s1 + s2, s3, n);
    let s4 = s0 + s1 + s2 + s3;
    lemma_below_join(s4, d(0), n);
    lemma_below_join(s4 + d(0), d(1), n);
    lemma_below_join(s4 + d(0) + d(1), d(2), n);
    lemma_below_join(s4 + d(0) + d(1) + d(2), d(3), n);
    let s5 = s4 + d(0) + d(1) + d(2) + d(3);
    lemma_below_join(s5, l(0), n);
    lemma_below_join(s5 + l(0), l(1), n);
    lemma_below_join(s5 + l(0) + l(1), l(2), n);
    lemma_below_join(s5 + l(0) + l(1) + l(2), l(3), n);
    assert(slacks_of(e, c, xl) == s5 + l(0) + l(1) + l(2) + l(3));
}

proof fn lemma_below_join(a: Seq<int>, b: Seq<int>, n: int)
    requires
        below(a, n),
        below(b, n),
    ensures
        below(a + b, n),
{
    assert forall|k: int| 0 <= k < (a + b).len() implies 0 <= #[trigger] (a + b)[k] < n by {
        if k >= a.len() {
            assert((a + b)[k] == b[k - a.len()]);
        } else {
            assert((a + b)[k] == a[k]);
        }
    }
}

/// The places of rows in their blocks are within the range.
proof fn lemma_row_slacks(w: Compiled, n: int)
    requires
        w.ready(),
        n >= w.encoding().z_len + 2,
    ensures
        below(cons_column(w.encoding(), |r: RowInfo| r.lo), n),
        below(cons_column(w.encoding(), |r: RowInfo| r.hi), n),
{
    let e = w.encoding();
    let q = w.instrs.len() as int;
    let rows = cons_rows(e, q);
    let lo = cons_column(e, |r: RowInfo| r.lo);
    let hi = cons_column(e, |r: RowInfo| r.hi);
    lemma_ready_sizes(w);
    assert forall|t: int| 0 <= t < lo.len() implies 0 <= #[trigger] lo[t] < n && 0 <= hi[t] < n by {
        if t < rows.len() {
            let at = lemma_cons_row(e, q, t);
            lemma_instr(w, at.0);
            lemma_ready(e, at.0);
        }
    }
    assert forall|t: int| 0 <= t < hi.len() implies 0 <= #[trigger] hi[t] < n by {
        assert(0 <= lo[t] < n);
    }
}

/// The coordinates and what is left of the sides are within the range.
proof fn lemma_family_slacks(w: Compiled, n: int, j: int)
    requires
        w.ready(),
        n >= w.encoding().z_len + 2,
        0 <= j < MAX_DIGITS,
    ensures
        ({
            let e = w.encoding();
            let xl = circuit_profile(e, w.circuit()).x_len;
            below(digit_column(e, xl, j), n) && below(left_column(e, xl, j), n)
        }),
{
    let e = w.encoding();
    let xl = circuit_profile(e, w.circuit()).x_len;
    let rows = x_rows(e, NUM_FAMILIES as int);
    let a = digit_column(e, xl, j);
    let b = left_column(e, xl, j);
    lemma_ready_sizes(w);
    assert forall|t: int| 0 <= t < a.len() implies 0 <= #[trigger] a[t] < n && 0 <= b[t] < n by {
        if t < rows.len() {
            lemma_digit_slacks(w, t, j);
        }
    }
    assert forall|t: int| 0 <= t < b.len() implies 0 <= #[trigger] b[t] < n by {
        assert(0 <= a[t] < n);
    }
}

} // verus!
