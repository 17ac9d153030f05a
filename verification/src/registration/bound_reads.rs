//! The rules bind what the rows of a circuit read.
use vstd::prelude::*;
use vstd::arithmetic::power2::*;
use crate::circuit::{CircuitView, Entry};
use crate::field::{cong, lemma_cong_ops, lemma_modulus, modulus};
use crate::logup::lemma_counts;
use crate::replay::row_at;
use crate::sparse::{
    below, counts, lemma_prefix_group, lemma_suffix_group, lemma_table_size, not_empty, one_if,
    prefix_group, quads, row_quads, size_limit, suffix_group, suffix_quads,
};
use crate::sumcheck::{gate_value, lemma_log2_ceil, log2_ceil};
use crate::sums::{lemma_sum_eq, lemma_sum_single, lemma_sum_zero, sum_to};
use super::accepted::check_holds;
use super::bound::{columns_from, lemma_small_rows, parts_are, sides_match};
use super::cells::{lemma_entry_cells, lemma_lu_cells, lemma_prefix_cells};
use super::certificate::{circuit_vectors, column_of, columns_of, registrable};
use super::columns::{lemma_entry_rows, lemma_ready, lemma_rows_len};
use super::compiled_laws::lemma_lu_row;
use super::encode::{EncodingView, counters_at, delta_at, same_elements};
use super::equal_laws::{lemma_cons_rows_of, lemma_lins_of, lemma_lu_rows_of};
use super::matrix_laws::{
    lemma_row_whole, lemma_segment, lemma_segment_len, matrix_of, quad_weight,
};
use super::relation::{Tab, check_inputs, eq_ranges, range_block};
use super::row_counts::{lemma_one_row, lemma_small_same, lemma_sum_bits};
use super::tallies::{
    block_sum, blocks_sum, cells_at, lemma_lins, lemma_sum_same, num_at, parts_at,
};
use super::witness::{
    after, circuit_profile, is_lin_column, is_linear, limit_at, lookup_row_of, lu_out_column,
    row_out_column, slack_at, wide,
};
use super::zero_laws::{lemma_cons_row, lemma_row_cells};

verus! {

/// Whether the value of a vector is the given one.
proof fn lemma_range_bits(f: spec_fn(Tab) -> Seq<int>, log: int, t: Tab, v: int, x: int)
    ensures
        ({
            let b = range_block(log, t);
            let len = pow2(log as nat) as int;
            let h = parts_are(seq![v]);
            &&& 0 <= block_sum(f, b, h) <= len
            &&& 0 <= x < len && column_of(f, t, len)[x] == v ==> block_sum(f, b, h) >= 1
        }),
{
    let b = range_block(log, t);
    let len = pow2(log as nat) as int;
    let u = seq![v];
    let h = parts_are(u);
    let g = |y: int| num_at(f, b, y) * h(parts_at(f, b, y));
    assert forall|y: int| 0 <= y < len implies #[trigger] g(y) == h(parts_at(f, b, y)) by {
        lemma_lins(cells_at(f, len, y));
        assert(cells_at(f, len, y)(Tab::One) == 1);
        assert(1 * h(parts_at(f, b, y)) == h(parts_at(f, b, y)));
    }
    lemma_sum_bits(len, g);
    if 0 <= x < len && column_of(f, t, len)[x] == v {
        lemma_lins(cells_at(f, len, x));
        let w = parts_at(f, b, x);
        assert(w =~= u);
        assert(same_elements(w, u));
        assert(g(x) == 1);
    }
}

/// A place that is left is not negative: what is said to be within the range is.
#[verifier::rlimit(40)]
proof fn lemma_not_negative(e: EncodingView, c: CircuitView, v: int, x: int, y: int)
    requires
        registrable(e, c),
        sides_match(circuit_vectors(e, c), eq_ranges(circuit_profile(e, c))),
        -4 * size_limit() <= v,
        ({
            let f = circuit_vectors(e, c);
            let p = circuit_profile(e, c);
            ||| 0 <= x < wide(p.entry_len) && column_of(f, Tab::Diff, wide(p.entry_len))[x] == v
            ||| 0 <= y < wide(p.b_pre_len) && column_of(f, Tab::DiffPre, wide(p.b_pre_len))[y] == v
        }),
    ensures
        v >= 0,
{
    let f = circuit_vectors(e, c);
    let p = circuit_profile(e, c);
    let q = eq_ranges(p);
    let u = seq![v];
    let h = parts_are(u);
    let log = log2_ceil(p.entry_len) as int;
    let pre = log2_ceil(p.b_pre_len) as int;
    let cons = log2_ceil(p.cons_line) as int;
    let fam = log2_ceil(p.x_len) as int;
    lemma_modulus();
    lemma_suffix_group(c, 1);
    lemma_prefix_group(c, 1);
    lemma_table_size(p.entry_len);
    lemma_table_size(p.b_pre_len);
    lemma_table_size(p.cons_line);
    lemma_table_size(p.x_len);
    lemma_range_bits(f, log, Tab::Diff, v, x);
    lemma_range_bits(f, pre, Tab::DiffPre, v, y);
    lemma_range_bits(f, cons, Tab::RowSlackLo, v, 0);
    lemma_range_bits(f, cons, Tab::RowSlackHi, v, 0);
    lemma_range_bits(f, fam, Tab::XDigit(0), v, 0);
    lemma_range_bits(f, fam, Tab::XDigitSlack(0), v, 0);
    lemma_range_bits(f, fam, Tab::XDigit(1), v, 0);
    lemma_range_bits(f, fam, Tab::XDigitSlack(1), v, 0);
    lemma_range_bits(f, fam, Tab::XDigit(2), v, 0);
    lemma_range_bits(f, fam, Tab::XDigitSlack(2), v, 0);
    lemma_range_bits(f, fam, Tab::XDigit(3), v, 0);
    lemma_range_bits(f, fam, Tab::XDigitSlack(3), v, 0);
    reveal_with_fuel(blocks_sum, 13);
    let left = blocks_sum(f, q.left, h, 12);
    assert(1 <= left < modulus());
    if v < 0 {
        let r = q.right[0];
        let rlen = pow2(p.log_range as nat) as int;
        lemma_table_size(e.z_len + 2);
        let g = |j: int| num_at(f, r, j) * h(parts_at(f, r, j));
        assert forall|j: int| 0 <= j < rlen implies #[trigger] g(j) == 0 by {
            lemma_lins_of(f, r, j, seq![Tab::Identity]);
            let w = parts_at(f, r, j);
            assert(w[0] == j);
            if same_elements(w, u) {
                assert(cong(w[0], u[0]));
                lemma_cong_ops(j, v, v, v);
                lemma_small_same(j - v, 0);
            }
            assert(num_at(f, r, j) * 0 == 0);
        }
        lemma_sum_zero(rlen, g);
        assert(blocks_sum(f, q.right, h, 1) == 0);
        assert(q.left.len() == 12 && q.right.len() == 1);
        assert(cong(left, 0));
        lemma_small_same(left, 0);
    }
}

/// Where an instruction writes fits in memory.
proof fn lemma_limit(e: EncodingView, c: CircuitView, t: int)
    requires
        registrable(e, c),
        0 <= t < after(c, 3),
    ensures
        0 <= limit_at(e, c, t) <= e.z_len,
{
    let q = e.opcode.len() as int;
    let g = suffix_group(c);
    lemma_entry_rows(c);
    lemma_rows_len(e, q);
    lemma_log2_ceil(e.cons_line);
    lemma_log2_ceil(e.lu_line);
    if t < after(c, 2) {
        let at = lemma_cons_row(e, q, g.row[t]);
        lemma_ready(e, at.0);
    } else {
        let at = lemma_lu_row(e, q, lookup_row_of(c, t));
        lemma_ready(e, at.0);
    }
}

/// Where the rule on the ranges holds, no entry has a negative place left.
proof fn lemma_slack(e: EncodingView, c: CircuitView, t: int)
    requires
        registrable(e, c),
        sides_match(circuit_vectors(e, c), eq_ranges(circuit_profile(e, c))),
        0 <= t < suffix_group(c).row.len(),
    ensures
        slack_at(e, c, t) >= 0,
{
    lemma_log2_ceil(suffix_group(c).row.len() as int);
    lemma_entry_cells(e, c, t);
    lemma_entry_rows(c);
    if t < after(c, 3) {
        lemma_limit(e, c, t);
        lemma_not_negative(e, c, slack_at(e, c, t), t, -1);
    }
}

/// Where the rule on the ranges holds, there are parameters.
pub proof fn lemma_some_parameters(e: EncodingView, c: CircuitView)
    requires
        registrable(e, c),
        sides_match(circuit_vectors(e, c), eq_ranges(circuit_profile(e, c))),
    ensures
        e.weight_len > 0,
{
    if e.weight_len == 0 {
        let g = prefix_group(c);
        reveal(prefix_group);
        let q = not_empty(quads(c.b, 0, 0, c.b.len() as int));
        lemma_prefix_group(c, 1);
        lemma_log2_ceil(g.row.len() as int);
        lemma_prefix_cells(e, c, 0);
        assert(g.col[0] == q[0].col);
        if quads(c.b, 0, 0, c.b.len() as int).len() > 0 {
            let at = super::matrix_laws::lemma_quad_source(c.b, 0, 0, c.b.len() as int, 0);
        }
        lemma_not_negative(e, c, -1 - g.col[0], -1, 0);
    }
}

/// An entry of a row on a range of columns is collected.
proof fn lemma_row_collected(row: Seq<Entry>, i: int, lo: int, hi: int, n: int, k: int) -> (j: int)
    requires
        0 <= k < n <= row.len(),
        lo <= row[k].col < hi,
    ensures
        0 <= j < row_quads(row, i, lo, hi, n).len(),
        row_quads(row, i, lo, hi, n)[j].row == i,
        row_quads(row, i, lo, hi, n)[j].col == row[k].col - lo,
    decreases n,
{
    let before = row_quads(row, i, lo, hi, n - 1);
    if k == n - 1 {
        before.len() as int
    } else {
        lemma_row_collected(row, i, lo, hi, n - 1, k)
    }
}

/// An entry of a matrix on a range of columns is collected.
proof fn lemma_collected(
    rows: Seq<Seq<Entry>>,
    lo: int,
    hi: int,
    n: int,
    r: int,
    k: int,
) -> (j: int)
    requires
        0 <= r < n <= rows.len(),
        0 <= k < rows[r].len(),
        lo <= rows[r][k].col < hi,
    ensures
        0 <= j < quads(rows, lo, hi, n).len(),
        quads(rows, lo, hi, n)[j].row == r,
        quads(rows, lo, hi, n)[j].col == rows[r][k].col - lo,
    decreases n,
{
    let before = quads(rows, lo, hi, n - 1);
    if r == n - 1 {
        let j = lemma_row_collected(rows[r], r, lo, hi, rows[r].len() as int, k);
        before.len() + j
    } else {
        lemma_collected(rows, lo, hi, n - 1, r, k)
    }
}

/// Where the rule on the ranges holds, the plain rows of the first two matrices read cells
/// before those that their instruction writes.
pub proof fn lemma_plain_reads_bound(
    e: EncodingView,
    c: CircuitView,
    m: int,
    i: int,
    s: int,
    k: int,
)
    requires
        registrable(e, c),
        sides_match(circuit_vectors(e, c), eq_ranges(circuit_profile(e, c))),
        0 <= m < 2,
        0 <= i < e.opcode.len(),
        0 <= s < delta_at(e, i).cr,
        is_linear(e.opcode[i]) == 0,
        0 <= k < matrix_of(c, m)[e.cr[i] + s].len(),
        c.weight_len <= matrix_of(c, m)[e.cr[i] + s][k].col,
    ensures
        matrix_of(c, m)[e.cr[i] + s][k].col < e.out[i],
{
    let q = e.opcode.len() as int;
    let r = e.cr[i] + s;
    let rows = matrix_of(c, m);
    let top = usize::MAX as int;
    lemma_ready(e, i);
    lemma_rows_len(e, q);
    lemma_log2_ceil(e.cons_line);
    assert(e.out[i] == counters_at(e, i).out);
    lemma_cons_rows_of(e, q, i, s);
    lemma_small_rows(c, rows, r);
    let j = lemma_collected(rows, c.weight_len, top, rows.len() as int, r, k);
    lemma_segment_len(c, 0);
    lemma_segment_len(c, 1);
    lemma_segment_len(c, 2);
    lemma_segment(c, m, j);
    lemma_entry_rows(c);
    let t = crate::sparse::cumulated(crate::sparse::suffix_lens(c), m) + j;
    assert(t < after(c, m));
    lemma_slack(e, c, t);
    assert(suffix_group(c).row[t] == r);
    assert(row_out_column(e)[r] == e.out[i]);
    assert(is_lin_column(e)[r] == 0);
}

/// Where the rule on the ranges holds, the lookup rows read cells before those that their
/// instruction writes.
pub proof fn lemma_lookup_reads_bound(e: EncodingView, c: CircuitView, i: int, s: int, k: int)
    requires
        registrable(e, c),
        sides_match(circuit_vectors(e, c), eq_ranges(circuit_profile(e, c))),
        0 <= i < e.opcode.len(),
        0 <= s < delta_at(e, i).lr,
        0 <= k < c.d[e.lr[i] + s].len(),
        c.weight_len <= c.d[e.lr[i] + s][k].col,
    ensures
        c.d[e.lr[i] + s][k].col < e.out[i],
{
    let q = e.opcode.len() as int;
    let r = e.lr[i] + s;
    let top = usize::MAX as int;
    lemma_ready(e, i);
    lemma_rows_len(e, q);
    lemma_log2_ceil(e.lu_line);
    assert(e.out[i] == counters_at(e, i).out);
    lemma_lu_rows_of(e, q, i, s);
    lemma_small_rows(c, c.d, r);
    let j = lemma_collected(c.d, c.weight_len, top, c.d.len() as int, r, k);
    lemma_segment_len(c, 2);
    lemma_segment_len(c, 3);
    lemma_segment(c, 3, j);
    lemma_entry_rows(c);
    let t = crate::sparse::cumulated(crate::sparse::suffix_lens(c), 3) + j;
    assert(after(c, 2) <= t < after(c, 3));
    lemma_slack(e, c, t);
    assert(lookup_row_of(c, t) == r);
    assert(lu_out_column(e)[r] == e.out[i]);
}

/// How often an index occurs.
proof fn lemma_count_at(idx: Seq<int>, n: int, j: int, g: spec_fn(int) -> int)
    requires
        0 <= j < n,
        below(idx, n),
        forall|k: int| 0 <= k < idx.len() ==> #[trigger] g(k) == one_if(idx[k] == j),
    ensures
        counts(idx, n)[j] == sum_to(idx.len() as int, g),
{
    let m = idx.len() as int;
    let c = counts(idx, n);
    let v = Seq::new(n as nat, |y: int| one_if(y == j));
    lemma_counts(idx, n, v);
    let a = |k: int| v[idx[k]];
    assert forall|k: int| 0 <= k < m implies #[trigger] a(k) == g(k) by {
        assert(g(k) == one_if(idx[k] == j));
        assert(0 <= idx[k] < n);
    }
    lemma_sum_eq(m, a, g);
    let b = |i: int| v[i] * c[i];
    assert forall|i: int| 0 <= i < n && i != j implies #[trigger] b(i) == 0 by {
        assert(0 * c[i] == 0);
    }
    lemma_sum_single(n, j, b);
    assert(1 * c[j] == c[j]);
}

/// Where the rule on the inputs holds, only the rows of lookups read inputs.
#[verifier::rlimit(40)]
pub proof fn lemma_inputs_bound(e: EncodingView, c: CircuitView, chals: Seq<int>, i: int, s: int)
    requires
        registrable(e, c),
        columns_from(c.d, c.weight_len),
        check_holds(circuit_vectors(e, c), check_inputs(circuit_profile(e, c)), chals),
        0 <= i < e.opcode.len(),
        0 <= s < delta_at(e, i).lr,
        !(e.opcode[i] is Lookup),
    ensures
        c.d[e.lr[i] + s].len() == 0,
{
    let q = e.opcode.len() as int;
    let f = circuit_vectors(e, c);
    let x = check_inputs(circuit_profile(e, c));
    let len = pow2(x.log_len as nat) as int;
    let j = e.lr[i] + s;
    let top = usize::MAX as int;
    let wl = c.weight_len;
    lemma_modulus();
    lemma_ready(e, i);
    lemma_rows_len(e, q);
    lemma_log2_ceil(e.lu_line);
    assert(e.out[i] == counters_at(e, i).out);
    lemma_lu_rows_of(e, q, i, s);
    lemma_lu_cells(e, c, j);
    lemma_entry_rows(c);
    lemma_segment_len(c, 3);
    let idx = Seq::new(
        (after(c, 3) - after(c, 2)) as nat,
        |k: int| lookup_row_of(c, after(c, 2) + k),
    );
    let v = row_at(columns_of(f, x.tables, len), j);
    lemma_row_cells(f, x.tables, len, j);
    assert(v[0] == column_of(f, Tab::CntL, len)[j]);
    assert(v[1] == column_of(f, Tab::IsLookup, len)[j]);
    assert(v[0] == counts(idx, len)[j]);
    assert(v[1] == 0);
    reveal_with_fuel(gate_value, 4);
    assert(gate_value(x.gate, v, chals) == v[0] * (1 - v[1]));
    assert(v[0] * (1 - 0) == v[0]);
    assert(cong(v[0], 0));
    let g = |k: int| one_if(idx[k] == j);
    lemma_sum_bits(idx.len() as int, g);
    lemma_suffix_group(c, 1);
    assert(below(idx, len)) by {
        assert forall|k: int| 0 <= k < idx.len() implies 0 <= #[trigger] idx[k] < len by {
            assert(0 <= after(c, 2) + k < after(c, 3));
            assert(idx[k] == suffix_group(c).row[after(c, 2) + k] - pow2(
                (suffix_group(c).log_row - 1) as nat,
            ));
        }
    }
    lemma_count_at(idx, len, j, g);
    assert(idx.len() <= size_limit());
    lemma_small_same(v[0], 0);
    // the entries of the row
    let psi = |a: int, en: Entry| one_if(a == j);
    let all = suffix_quads(c, c.d);
    let phi = quad_weight(psi, wl);
    lemma_small_rows(c, c.d, j);
    lemma_one_row(c.d, wl, top, j, psi);
    assert forall|k: int| 0 <= k < c.d[j].len() implies wl <= (#[trigger] c.d[j][k]).col < top by {}
    lemma_row_whole(c.d[j], j, wl, top, psi);
    let row = c.d[j];
    let n = row.len() as int;
    lemma_sum_same(n, 1);
    lemma_sum_eq(n, |k: int| psi(j, row[k]), |i: int| 1int);
    let y = |k: int| phi(all[k]);
    assert forall|k: int| 0 <= k < all.len() implies #[trigger] g(k) == y(k) by {
        lemma_segment(c, 3, k);
        assert(idx[k] == all[k].row);
    }
    assert(idx.len() == all.len());
    lemma_sum_eq(all.len() as int, g, y);
}

} // verus!
