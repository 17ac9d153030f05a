//! The sums of fractions over the vectors of a program and its circuit are equal.
use vstd::prelude::*;
use vstd::arithmetic::power2::*;
use crate::circuit::CircuitView;
use crate::logup::lemma_counts;
use crate::sparse::{
    below, counts, cumulated, lemma_prefix_group, lemma_suffix_group, lemma_table_size,
    prefix_group, suffix_group,
};
use crate::sumcheck::{lemma_log2_ceil, log2_ceil};
use crate::sums::{
    lemma_sum_add, lemma_sum_eq, lemma_sum_extend, lemma_sum_split, lemma_sum_zero, sum_to,
};
use super::cells::{
    clamped, lemma_cons_cells, lemma_entry_cells, lemma_family_cells, lemma_instr_cells,
    lemma_lu_cells, lemma_prefix_cells,
};
use super::certificate::{circuit_vectors, column_of, registrable};
use super::columns::{
    encoding_ready, lemma_entry_rows, lemma_family_rows_len, lemma_rows_len, lemma_x_rows_len,
};
use super::encode::{EncodingView, counters_at, delta_at, lemma_counters, one_hot};
use super::family::{NUM_FAMILIES, families_of};
use super::family_laws::lemma_lens;
use super::registrar::slacks_fit;
use super::relation::{
    BlockView, Tab, eq_counters, eq_entries, eq_family, eq_lookup_entries, eq_lookups,
    eq_prefix_entries, eq_ranges, eq_rows, fam_ind, ind, lin_of, lin_plus, lin_shift, lin_value,
    lins_of, plain_counters, range_block, seg_ind, shifted_counters,
};
use super::tallies::{
    block_sum, blocks_sum, cells_at, lemma_block_first, lemma_lins, lemma_sum_concat,
    lemma_sum_parts, lemma_sum_same, num_at, parts_at, sides_meet,
};
use super::witness::{
    CTR_AUX, CTR_CR, CTR_LR, CTR_OUT, XRow, after, circuit_profile, cons_row, cons_rows,
    families_fit, family_lens_of, family_rows, is_lin_column, is_linear, lemma_cumulated,
    lemma_share_sum, lookup_row_of, lu_out_column, lu_row, lu_rows, row_out_column, share,
    share_sum, slacks_of, wide, x_row, x_rows,
};

verus! {

/// A block whose numerators vanish outside a range is a sum over the range.
pub proof fn lemma_block_range(
    f: spec_fn(Tab) -> Seq<int>,
    b: BlockView,
    h: spec_fn(Seq<int>) -> int,
    lo: int,
    n: int,
    g: spec_fn(int) -> int,
)
    requires
        0 <= lo,
        0 <= n,
        lo + n <= pow2(b.log_len as nat),
        forall|i: int|
            0 <= i < n ==> num_at(f, b, lo + i) * h(parts_at(f, b, lo + i)) == #[trigger] g(i),
        forall|x: int|
            0 <= x < pow2(b.log_len as nat) && !(lo <= x < lo + n) ==> #[trigger] num_at(f, b, x)
                == 0,
    ensures
        block_sum(f, b, h) == sum_to(n, g),
{
    let d = |x: int| num_at(f, b, x) * h(parts_at(f, b, x));
    assert forall|x: int|
        0 <= x < pow2(b.log_len as nat) && !(lo <= x < lo + n) implies #[trigger] d(x) == 0 by {
        assert(num_at(f, b, x) == 0);
        assert(0 * h(parts_at(f, b, x)) == 0);
    }
    lemma_sum_extend(lo + n, pow2(b.log_len as nat) as int, d);
    lemma_sum_split(lo, n, d);
    lemma_sum_zero(lo, d);
    let d1 = |i: int| d(lo + i);
    assert forall|i: int| 0 <= i < n implies #[trigger] d1(i) == g(i) by {
        assert(g(i) == num_at(f, b, lo + i) * h(parts_at(f, b, lo + i)));
    }
    lemma_sum_eq(n, d1, g);
}

/// Place `r` of part `i`.
pub open spec fn run_at(start: spec_fn(int) -> int, i: int, r: int) -> int {
    start(i) + r
}

/// A sum over parts in which all terms are equal.
pub proof fn lemma_sum_runs(
    n: int,
    start: spec_fn(int) -> int,
    g: spec_fn(int) -> int,
    k: spec_fn(int) -> int,
)
    requires
        0 <= n,
        start(0) == 0,
        forall|i: int, j: int| 0 <= i <= j <= n ==> #[trigger] start(i) <= #[trigger] start(j),
        forall|i: int, r: int|
            0 <= i < n && 0 <= r < start(i + 1) - start(i) ==> g(#[trigger] run_at(start, i, r))
                == k(i),
    ensures
        sum_to(start(n), g) == sum_to(n, |i: int| (start(i + 1) - start(i)) * k(i)),
{
    lemma_sum_parts(n, start, g);
    let a = |i: int| sum_to(start(i + 1) - start(i), |r: int| g(start(i) + r));
    let b = |i: int| (start(i + 1) - start(i)) * k(i);
    assert forall|i: int| 0 <= i < n implies #[trigger] a(i) == b(i) by {
        let d = start(i + 1) - start(i);
        let same = k(i);
        let u = |r: int| g(start(i) + r);
        let w = |r: int| same;
        assert forall|r: int| 0 <= r < d implies #[trigger] u(r) == w(r) by {
            assert(g(run_at(start, i, r)) == k(i));
        }
        lemma_sum_eq(d, u, w);
        lemma_sum_same(d, same);
    }
    lemma_sum_eq(n, a, b);
}

/// The values of a list of vectors.
pub proof fn lemma_lins_of(f: spec_fn(Tab) -> Seq<int>, b: BlockView, x: int, tabs: Seq<Tab>)
    requires
        b.comps == lins_of(tabs),
    ensures
        parts_at(f, b, x).len() == tabs.len(),
        forall|i: int|
            0 <= i < tabs.len() ==> #[trigger] parts_at(f, b, x)[i] == column_of(
                f,
                tabs[i],
                pow2(b.log_len as nat) as int,
            )[x],
{
    lemma_lins(cells_at(f, pow2(b.log_len as nat) as int, x));
}

/// The counters of one instruction and what it takes make those of the next.
proof fn lemma_next_counters(e: EncodingView, c: CircuitView, x: int)
    requires
        registrable(e, c),
        0 <= x,
        x + 1 < wide(e.opcode.len() as int + 1),
    ensures
        ({
            let f = circuit_vectors(e, c);
            let len = wide(e.opcode.len() as int + 1);
            let g0 = cells_at(f, len, x);
            let g1 = cells_at(f, len, x + 1);
            forall|k: int|
                0 <= k < shifted_counters().len() ==> lin_value(#[trigger] shifted_counters()[k], g0)
                    == lin_value(plain_counters()[k], g1)
        }),
{
    let f = circuit_vectors(e, c);
    let q = e.opcode.len() as int;
    let len = wide(q + 1);
    let g0 = cells_at(f, len, x);
    let g1 = cells_at(f, len, x + 1);
    let s = shifted_counters();
    let t = plain_counters();
    lemma_lins(g0);
    lemma_lins(g1);
    lemma_instr_cells(e, c, x);
    lemma_instr_cells(e, c, x + 1);
    assert(s.len() == 17 && t.len() == 17);
    assert forall|k: int| 0 <= k < s.len() implies lin_value(#[trigger] s[k], g0) == lin_value(
        t[k],
        g1,
    ) by {
        if k == 0 {
            assert(s[0] == lin_shift(lin_of(Tab::Identity), 1));
            assert(t[0] == lin_of(Tab::Identity));
        } else if k < 5 {
            let y = (k - 1) as usize;
            assert(s[k] == lin_plus(
                lin_of(Tab::Ctr(y)),
                1,
                Tab::DCtr(y),
            ));
            assert(t[k] == lin_of(Tab::Ctr(y)));
            assert(y == CTR_OUT || y == CTR_AUX || y == CTR_CR || y == CTR_LR);
        } else {
            let y = (k - 5) as usize;
            assert(s[k] == lin_plus(
                lin_of(Tab::Base(y)),
                1,
                Tab::Mult(y),
            ));
            assert(t[k] == lin_of(Tab::Base(y)));
            assert(g0(Tab::Base(y)) == share_sum(e, families_of()[y as int], clamped(e, x)));
            assert(g1(Tab::Base(y)) == share_sum(e, families_of()[y as int], clamped(e, x + 1)));
            assert(g0(Tab::Mult(y)) == if x < q {
                share(e, families_of()[y as int], x)
            } else {
                0
            });
        }
    }
}

/// The counters advance.
pub proof fn lemma_eq_counters(e: EncodingView, c: CircuitView, h: spec_fn(Seq<int>) -> int)
    requires
        registrable(e, c),
    ensures
        sides_meet(circuit_vectors(e, c), eq_counters(circuit_profile(e, c)), h),
{
    let f = circuit_vectors(e, c);
    let x = eq_counters(circuit_profile(e, c));
    let q = e.opcode.len() as int;
    let len = wide(q + 1);
    let top = len - 1;
    lemma_log2_ceil(q + 1);
    lemma_table_size(q + 1);
    lemma_pow2_pos(crate::sumcheck::log2_ceil(q + 1));
    let l = x.left[0];
    let r = x.right[0];
    assert(pow2(l.log_len as nat) == len && pow2(r.log_len as nat) == len);
    let g = |i: int| h(parts_at(f, l, i));
    assert forall|i: int| 0 <= i < len implies #[trigger] num_at(f, l, i) == if i < top {
        1int
    } else {
        0
    } by {
        lemma_lins(cells_at(f, len, i));
        assert(cells_at(f, len, i)(ind(top, top + 1)) == if i < top {
            0int
        } else {
            1
        });
    }
    assert forall|i: int| 0 <= i < top implies num_at(f, l, i) * h(parts_at(f, l, i)) == #[trigger]
        g(i) by {
        assert(1 * h(parts_at(f, l, i)) == h(parts_at(f, l, i)));
    }
    lemma_block_first(f, l, h, top, g);
    assert forall|i: int| 0 <= i < len implies #[trigger] num_at(f, r, i) == if i == 0 {
        0int
    } else {
        1
    } by {
        lemma_lins(cells_at(f, len, i));
        assert(cells_at(f, len, i)(ind(0, 1)) == if i == 0 {
            1int
        } else {
            0
        });
    }
    assert forall|i: int| 0 <= i < top implies num_at(f, r, 1 + i) * h(parts_at(f, r, 1 + i))
        == #[trigger] g(i) by {
        lemma_next_counters(e, c, i);
        assert(parts_at(f, r, 1 + i) =~= parts_at(f, l, i)) by {
            assert(shifted_counters().len() == plain_counters().len());
            assert forall|k: int| 0 <= k < shifted_counters().len() implies parts_at(
                f,
                r,
                1 + i,
            )[k] == parts_at(f, l, i)[k] by {
                assert(lin_value(shifted_counters()[k], cells_at(f, len, i)) == lin_value(
                    plain_counters()[k],
                    cells_at(f, len, i + 1),
                ));
            }
        }
        assert(num_at(f, r, 1 + i) == 1);
        assert(1 * h(parts_at(f, l, i)) == h(parts_at(f, l, i)));
    }
    lemma_block_range(f, r, h, 1, top, g);
    reveal_with_fuel(blocks_sum, 2);
}

pub proof fn lemma_pow2_pos(n: nat)
    requires
        n >= 1,
    ensures
        pow2(n) >= 2,
{
    crate::sums::lemma_pow2_step(0);
    crate::sums::lemma_pow2_mono(1, n);
}

/// The constraint rows of an instruction.
pub proof fn lemma_cons_rows_of(e: EncodingView, n: int, i: int, r: int)
    requires
        encoding_ready(e),
        0 <= i < n <= e.opcode.len(),
        0 <= r < delta_at(e, i).cr,
    ensures
        cons_rows(e, n)[counters_at(e, i).cr + r] == cons_row(e, i, r),
        counters_at(e, i).cr + r < cons_rows(e, n).len(),
        0 <= counters_at(e, i).cr,
    decreases n,
{
    lemma_rows_len(e, n - 1);
    lemma_rows_len(e, n);
    lemma_counters(e, i, i);
    if i < n - 1 {
        lemma_cons_rows_of(e, n - 1, i, r);
    }
}

/// The lookup rows of an instruction.
pub proof fn lemma_lu_rows_of(e: EncodingView, n: int, i: int, r: int)
    requires
        encoding_ready(e),
        0 <= i < n <= e.opcode.len(),
        0 <= r < delta_at(e, i).lr,
    ensures
        lu_rows(e, n)[counters_at(e, i).lr + r] == lu_row(e, i),
        counters_at(e, i).lr + r < lu_rows(e, n).len(),
        0 <= counters_at(e, i).lr,
    decreases n,
{
    lemma_rows_len(e, n - 1);
    lemma_rows_len(e, n);
    lemma_counters(e, i, i);
    if i < n - 1 {
        lemma_lu_rows_of(e, n - 1, i, r);
    }
}

/// The rows of the instructions follow each other.
pub proof fn lemma_row_starts(e: EncodingView)
    requires
        encoding_ready(e),
    ensures
        forall|i: int, j: int|
            0 <= i <= j <= e.opcode.len() ==> (#[trigger] counters_at(e, i)).cr <= (
            #[trigger] counters_at(e, j)).cr,
        forall|i: int, j: int|
            0 <= i <= j <= e.opcode.len() ==> (#[trigger] counters_at(e, i)).lr <= (
            #[trigger] counters_at(e, j)).lr,
{
    assert forall|i: int, j: int| 0 <= i <= j <= e.opcode.len() implies (#[trigger] counters_at(
        e,
        i,
    )).cr <= (#[trigger] counters_at(e, j)).cr by {
        lemma_counters(e, i, j);
    }
    assert forall|i: int, j: int| 0 <= i <= j <= e.opcode.len() implies (#[trigger] counters_at(
        e,
        i,
    )).lr <= (#[trigger] counters_at(e, j)).lr by {
        lemma_counters(e, i, j);
    }
}

/// The selectors of an instruction, by its kind.
pub proof fn lemma_sel(e: EncodingView, i: int)
    requires
        one_hot(e, i),
    ensures
        e.sel[0][i] == if e.opcode[i] is AddMult { 1int } else { 0 },
        e.sel[1][i] == if e.opcode[i] is Lookup { 1int } else { 0 },
        e.sel[2][i] == if e.opcode[i] is Div { 1int } else { 0 },
        e.sel[3][i] == if e.opcode[i] is MatMult { 1int } else { 0 },
        e.sel[4][i] == if e.opcode[i] is Conv { 1int } else { 0 },
{
}

/// What an instruction says of its constraint rows.
proof fn lemma_row_key(e: EncodingView, c: CircuitView, i: int)
    requires
        registrable(e, c),
        0 <= i < e.opcode.len(),
    ensures
        ({
            let f = circuit_vectors(e, c);
            let r = eq_rows(circuit_profile(e, c)).right[0];
            &&& num_at(f, r, i) == delta_at(e, i).cr
            &&& parts_at(f, r, i) == seq![
                i,
                e.cr[i],
                e.out[i],
                delta_at(e, i).cr,
                is_linear(e.opcode[i]),
            ]
        }),
{
    let f = circuit_vectors(e, c);
    let r = eq_rows(circuit_profile(e, c)).right[0];
    let q = e.opcode.len() as int;
    let gi = cells_at(f, wide(q + 1), i);
    lemma_log2_ceil(q + 1);
    lemma_lins(gi);
    lemma_instr_cells(e, c, i);
    assert(one_hot(e, i));
    lemma_sel(e, i);
    assert(gi(Tab::DCtr(CTR_CR)) == delta_at(e, i).cr);
    assert(gi(Tab::Sel(3)) == e.sel[3][i] && gi(Tab::Sel(4)) == e.sel[4][i]);
    assert(gi(Tab::Ctr(CTR_CR)) == e.cr[i] && gi(Tab::Ctr(CTR_OUT)) == e.out[i]);
    assert(gi(Tab::Identity) == i);
    assert(r.comps.len() == 5);
    assert(r.comps[0] == lin_of(Tab::Identity));
    assert(r.comps[1] == lin_of(Tab::Ctr(CTR_CR)));
    assert(r.comps[2] == lin_of(Tab::Ctr(CTR_OUT)));
    assert(r.comps[3] == lin_of(Tab::DCtr(CTR_CR)));
    assert(r.comps[4] == lin_plus(lin_of(Tab::Sel(3)), 1, Tab::Sel(4)));
    let v = parts_at(f, r, i);
    assert(v[0] == i);
    assert(v[1] == e.cr[i]);
    assert(v[2] == e.out[i]);
    assert(v[3] == delta_at(e, i).cr);
    assert(v[4] == is_linear(e.opcode[i]));
    assert(v =~= seq![i, e.cr[i], e.out[i], delta_at(e, i).cr, is_linear(e.opcode[i])]);
}

/// The constraint rows belong to their instructions.
#[verifier::rlimit(40)]
#[verifier::spinoff_prover]
pub proof fn lemma_eq_rows(e: EncodingView, c: CircuitView, h: spec_fn(Seq<int>) -> int)
    requires
        registrable(e, c),
    ensures
        sides_meet(circuit_vectors(e, c), eq_rows(circuit_profile(e, c)), h),
{
    let f = circuit_vectors(e, c);
    let x = eq_rows(circuit_profile(e, c));
    let q = e.opcode.len() as int;
    let l = x.left[0];
    let r = x.right[0];
    let n = e.cons_line;
    let len = wide(n);
    lemma_log2_ceil(n);
    lemma_log2_ceil(q + 1);
    lemma_rows_len(e, q);
    let rows = cons_rows(e, q);
    let g = |j: int| h(seq![rows[j].ptr, rows[j].cr, rows[j].out, rows[j].dcr, rows[j].lin]);
    let tabs = seq![Tab::RowPtr, Tab::RowCr, Tab::RowOut, Tab::RowDcr, Tab::IsLin];
    assert forall|j: int| 0 <= j < len implies #[trigger] num_at(f, l, j) == if j < n {
        1int
    } else {
        0
    } by {
        lemma_lins(cells_at(f, len, j));
        assert(cells_at(f, len, j)(ind(0, n)) == if j < n {
            1int
        } else {
            0
        });
    }
    assert forall|j: int| 0 <= j < n implies num_at(f, l, j) * h(parts_at(f, l, j)) == #[trigger]
        g(j) by {
        lemma_lins_of(f, l, j, tabs);
        lemma_cons_cells(e, c, j);
        assert(parts_at(f, l, j) =~= seq![
            rows[j].ptr,
            rows[j].cr,
            rows[j].out,
            rows[j].dcr,
            rows[j].lin,
        ]);
        assert(num_at(f, l, j) == 1);
        assert(1 * g(j) == g(j));
    }
    lemma_block_first(f, l, h, n, g);
    let start = |i: int| counters_at(e, i).cr;
    let key = |i: int|
        h(seq![i, e.cr[i], e.out[i], delta_at(e, i).cr, is_linear(e.opcode[i])]);
    lemma_row_starts(e);
    assert forall|i: int, s: int|
        0 <= i < q && 0 <= s < start(i + 1) - start(i) implies g(#[trigger] run_at(start, i, s))
        == key(i) by {
        lemma_cons_rows_of(e, q, i, s);
    }
    lemma_sum_runs(q, start, g, key);
    let k = |i: int| (start(i + 1) - start(i)) * key(i);
    assert forall|i: int| 0 <= i < q implies num_at(f, r, i) * h(parts_at(f, r, i)) == #[trigger]
        k(i) by {
        lemma_row_key(e, c, i);
    }
    assert forall|i: int| q <= i < wide(q + 1) implies #[trigger] num_at(f, r, i) == 0 by {
        lemma_lins(cells_at(f, wide(q + 1), i));
        lemma_instr_cells(e, c, i);
        assert(cells_at(f, wide(q + 1), i)(Tab::DCtr(CTR_CR)) == 0);
    }
    lemma_block_first(f, r, h, q, k);
    reveal_with_fuel(blocks_sum, 2);
}

/// The lookup rows carry the bounds of their instructions.
#[verifier::rlimit(60)]
#[verifier::spinoff_prover]
pub proof fn lemma_eq_lookups(e: EncodingView, c: CircuitView, h: spec_fn(Seq<int>) -> int)
    requires
        registrable(e, c),
    ensures
        sides_meet(circuit_vectors(e, c), eq_lookups(circuit_profile(e, c)), h),
{
    let f = circuit_vectors(e, c);
    let x = eq_lookups(circuit_profile(e, c));
    let q = e.opcode.len() as int;
    let l = x.left[0];
    let r = x.right[0];
    let r2 = x.right[1];
    let n = e.lu_line;
    let len = wide(n);
    lemma_log2_ceil(n);
    lemma_log2_ceil(q + 1);
    lemma_rows_len(e, q);
    let rows = lu_rows(e, q);
    let g = |j: int| h(seq![j, rows[j].0, rows[j].1]);
    let tabs = seq![Tab::Identity, Tab::LuOut, Tab::IsLookup];
    assert forall|j: int| 0 <= j < len implies #[trigger] num_at(f, l, j) == if j < n {
        1int
    } else {
        0
    } by {
        lemma_lins(cells_at(f, len, j));
        assert(cells_at(f, len, j)(ind(0, n)) == if j < n {
            1int
        } else {
            0
        });
    }
    assert forall|j: int| 0 <= j < n implies num_at(f, l, j) * h(parts_at(f, l, j)) == #[trigger]
        g(j) by {
        lemma_lins_of(f, l, j, tabs);
        lemma_lu_cells(e, c, j);
        assert(parts_at(f, l, j) =~= seq![j, rows[j].0, rows[j].1]);
        assert(num_at(f, l, j) == 1);
        assert(1 * g(j) == g(j));
    }
    lemma_block_first(f, l, h, n, g);
    let start = |i: int| counters_at(e, i).lr;
    lemma_row_starts(e);
    lemma_sum_parts(q, start, g);
    let a = |i: int| sum_to(start(i + 1) - start(i), |s: int| g(start(i) + s));
    let k1 = |i: int| (e.sel[1][i] + e.sel[2][i]) * h(seq![e.lr[i], e.out[i], e.sel[1][i]]);
    let k2 = |i: int| e.sel[2][i] * h(seq![e.lr[i] + 1, e.out[i], 0]);
    assert forall|i: int| 0 <= i < q implies #[trigger] a(i) == k1(i) + k2(i) by {
        assert(one_hot(e, i));
        lemma_sel(e, i);
        assert(e.out[i] == counters_at(e, i).out);
        let u = |s: int| g(start(i) + s);
        reveal_with_fuel(sum_to, 3);
        let h1 = h(seq![e.lr[i], e.out[i], e.sel[1][i]]);
        let h2 = h(seq![e.lr[i] + 1, e.out[i], 0]);
        assert(0 * h1 == 0 && 1 * h1 == h1 && 0 * h2 == 0 && 1 * h2 == h2);
        assert(a(i) == sum_to(delta_at(e, i).lr, u));
        if e.opcode[i] is Lookup {
            lemma_lu_rows_of(e, q, i, 0);
            assert(u(0) == h1);
        } else if e.opcode[i] is Div {
            lemma_lu_rows_of(e, q, i, 0);
            lemma_lu_rows_of(e, q, i, 1);
            assert(u(0) == h1);
            assert(u(1) == h2);
        }
    }
    lemma_sum_eq(q, a, |i: int| k1(i) + k2(i));
    lemma_sum_add(q, k1, k2);
    assert forall|i: int| 0 <= i < q implies num_at(f, r, i) * h(parts_at(f, r, i)) == #[trigger]
        k1(i) by {
        let gi = cells_at(f, wide(q + 1), i);
        lemma_lins(gi);
        lemma_lins_of(f, r, i, seq![Tab::Ctr(CTR_LR), Tab::Ctr(CTR_OUT), Tab::Sel(1)]);
        lemma_instr_cells(e, c, i);
        assert(gi(Tab::Sel(1)) == e.sel[1][i] && gi(Tab::Sel(2)) == e.sel[2][i]);
        assert(parts_at(f, r, i) =~= seq![e.lr[i], e.out[i], e.sel[1][i]]);
    }
    assert forall|i: int| 0 <= i < q implies num_at(f, r2, i) * h(parts_at(f, r2, i)) == #[trigger]
        k2(i) by {
        let gi = cells_at(f, wide(q + 1), i);
        lemma_lins(gi);
        lemma_instr_cells(e, c, i);
        assert(gi(Tab::Sel(2)) == e.sel[2][i]);
        assert(gi(Tab::Ctr(CTR_LR)) == e.lr[i] && gi(Tab::Ctr(CTR_OUT)) == e.out[i]);
        assert(parts_at(f, r2, i) =~= seq![e.lr[i] + 1, e.out[i], 0]);
    }
    assert forall|i: int| q <= i < wide(q + 1) implies #[trigger] num_at(f, r, i) == 0 by {
        let gi = cells_at(f, wide(q + 1), i);
        lemma_lins(gi);
        lemma_instr_cells(e, c, i);
        assert(gi(Tab::Sel(1)) == 0 && gi(Tab::Sel(2)) == 0);
    }
    assert forall|i: int| q <= i < wide(q + 1) implies #[trigger] num_at(f, r2, i) == 0 by {
        let gi = cells_at(f, wide(q + 1), i);
        lemma_lins(gi);
        lemma_instr_cells(e, c, i);
        assert(gi(Tab::Sel(2)) == 0);
    }
    lemma_block_first(f, r, h, q, k1);
    lemma_block_first(f, r2, h, q, k2);
    reveal_with_fuel(blocks_sum, 3);
}

/// A block whose numerators count how often its places are read is the sum over what is
/// read.
pub proof fn lemma_counted_block(
    f: spec_fn(Tab) -> Seq<int>,
    b: BlockView,
    h: spec_fn(Seq<int>) -> int,
    idx: Seq<int>,
    v: spec_fn(int) -> int,
)
    requires
        below(idx, pow2(b.log_len as nat) as int),
        forall|j: int|
            0 <= j < pow2(b.log_len as nat) ==> #[trigger] num_at(f, b, j) == counts(
                idx,
                pow2(b.log_len as nat) as int,
            )[j],
        forall|j: int|
            0 <= j < pow2(b.log_len as nat) ==> h(#[trigger] parts_at(f, b, j)) == v(j),
    ensures
        block_sum(f, b, h) == sum_to(idx.len() as int, |k: int| v(idx[k])),
{
    let n = pow2(b.log_len as nat) as int;
    let w = Seq::new(n as nat, |j: int| v(j));
    lemma_counts(idx, n, w);
    let count = counts(idx, n);
    let a = |j: int| w[j] * count[j];
    let d = |j: int| num_at(f, b, j) * h(parts_at(f, b, j));
    assert forall|j: int| 0 <= j < n implies #[trigger] a(j) == d(j) by {
        assert(num_at(f, b, j) == count[j]);
        assert(h(parts_at(f, b, j)) == v(j));
        assert(w[j] * count[j] == count[j] * w[j]) by (nonlinear_arith);
    }
    lemma_sum_eq(n, a, d);
    let s = |k: int| w[idx[k]];
    let t = |k: int| v(idx[k]);
    assert forall|k: int| 0 <= k < idx.len() implies #[trigger] s(k) == t(k) by {
        assert(0 <= idx[k] < n);
    }
    lemma_sum_eq(idx.len() as int, s, t);
}

/// The entries of the constraint matrices fetch their rows.
#[verifier::rlimit(40)]
#[verifier::spinoff_prover]
pub proof fn lemma_eq_entries(e: EncodingView, c: CircuitView, h: spec_fn(Seq<int>) -> int)
    requires
        registrable(e, c),
    ensures
        sides_meet(circuit_vectors(e, c), eq_entries(circuit_profile(e, c)), h),
{
    let f = circuit_vectors(e, c);
    let p = circuit_profile(e, c);
    let x = eq_entries(p);
    let l = x.left[0];
    let r = x.right[0];
    let gr = suffix_group(c);
    let len = wide(gr.row.len() as int);
    let rlen = wide(e.cons_line);
    let n = after(c, 2);
    lemma_suffix_group(c, 1);
    lemma_entry_rows(c);
    lemma_log2_ceil(gr.row.len() as int);
    lemma_log2_ceil(e.cons_line);
    let v = |j: int| h(seq![j, row_out_column(e)[j], is_lin_column(e)[j]]);
    let idx = gr.row.take(n);
    let g = |t: int| v(idx[t]);
    assert forall|t: int| 0 <= t < len implies #[trigger] num_at(f, l, t) == if t < n {
        1int
    } else {
        0
    } by {
        let gt = cells_at(f, len, t);
        lemma_lins(gt);
        assert(gt(seg_ind(p, 0)) + gt(seg_ind(p, 1)) + gt(
            seg_ind(p, 2),
        ) == if t < n {
            1int
        } else {
            0
        });
    }
    assert forall|t: int| 0 <= t < n implies num_at(f, l, t) * h(parts_at(f, l, t)) == #[trigger]
        g(t) by {
        lemma_lins_of(f, l, t, seq![Tab::Row, Tab::MaxRead, Tab::EntLin]);
        lemma_entry_cells(e, c, t);
        let j = gr.row[t];
        assert(parts_at(f, l, t) =~= seq![j, row_out_column(e)[j], is_lin_column(e)[j]]);
        assert(num_at(f, l, t) == 1);
        assert(1 * g(t) == g(t));
    }
    lemma_block_first(f, l, h, n, g);
    assert(below(idx, rlen));
    assert forall|j: int| 0 <= j < rlen implies #[trigger] num_at(f, r, j) == counts(
        idx,
        rlen,
    )[j] by {
        lemma_lins(cells_at(f, rlen, j));
        assert(cells_at(f, rlen, j)(Tab::CntC) == counts(idx, rlen)[j]);
    }
    lemma_rows_len(e, e.opcode.len() as int);
    assert forall|j: int| 0 <= j < rlen implies h(#[trigger] parts_at(f, r, j)) == v(j) by {
        lemma_lins_of(f, r, j, seq![Tab::Identity, Tab::RowOut, Tab::IsLin]);
        assert(parts_at(f, r, j) =~= seq![j, row_out_column(e)[j], is_lin_column(e)[j]]);
    }
    lemma_counted_block(f, r, h, idx, v);
    lemma_sum_eq(n, g, |k: int| v(idx[k]));
    reveal_with_fuel(blocks_sum, 2);
}

/// The entries of the lookup inputs fetch their bounds.
#[verifier::rlimit(40)]
#[verifier::spinoff_prover]
pub proof fn lemma_eq_lookup_entries(e: EncodingView, c: CircuitView, h: spec_fn(Seq<int>) -> int)
    requires
        registrable(e, c),
    ensures
        sides_meet(circuit_vectors(e, c), eq_lookup_entries(circuit_profile(e, c)), h),
{
    let f = circuit_vectors(e, c);
    let p = circuit_profile(e, c);
    let x = eq_lookup_entries(p);
    let l = x.left[0];
    let r = x.right[0];
    let gr = suffix_group(c);
    let len = wide(gr.row.len() as int);
    let rlen = wide(e.lu_line);
    let lo = after(c, 2);
    let n = after(c, 3) - lo;
    lemma_suffix_group(c, 1);
    lemma_entry_rows(c);
    lemma_log2_ceil(gr.row.len() as int);
    lemma_log2_ceil(e.lu_line);
    let v = |j: int| h(seq![j, lu_out_column(e)[j]]);
    let idx = Seq::new(n as nat, |k: int| lookup_row_of(c, after(c, 2) + k));
    let g = |k: int| v(idx[k]);
    assert forall|t: int| 0 <= t < len implies #[trigger] num_at(f, l, t) == if lo <= t < lo + n {
        1int
    } else {
        0
    } by {
        let gt = cells_at(f, len, t);
        lemma_lins(gt);
        assert(gt(seg_ind(p, 3)) == if lo <= t < lo + n {
            1int
        } else {
            0
        });
    }
    assert forall|k: int| 0 <= k < n implies num_at(f, l, lo + k) * h(parts_at(f, l, lo + k))
        == #[trigger] g(k) by {
        let t = lo + k;
        let gt = cells_at(f, len, t);
        lemma_lins(gt);
        lemma_entry_cells(e, c, t);
        let j = lookup_row_of(c, t);
        assert(gt(Tab::Row) == gr.row[t]);
        assert(parts_at(f, l, t) =~= seq![j, lu_out_column(e)[j]]);
        assert(num_at(f, l, t) == 1);
        assert(1 * g(k) == g(k));
    }
    lemma_block_range(f, l, h, lo, n, g);
    assert(below(idx, rlen)) by {
        assert forall|k: int| 0 <= k < idx.len() implies 0 <= #[trigger] idx[k] < rlen by {
            assert(gr.row[lo + k] < pow2((gr.log_row - 1) as nat) + c.d.len());
        }
    }
    assert forall|j: int| 0 <= j < rlen implies #[trigger] num_at(f, r, j) == counts(
        idx,
        rlen,
    )[j] by {
        lemma_lins(cells_at(f, rlen, j));
        assert(idx =~= Seq::new(
            (after(c, 3) - after(c, 2)) as nat,
            |k: int| lookup_row_of(c, after(c, 2) + k),
        ));
        assert(cells_at(f, rlen, j)(Tab::CntL) == counts(idx, rlen)[j]);
    }
    lemma_rows_len(e, e.opcode.len() as int);
    assert forall|j: int| 0 <= j < rlen implies h(#[trigger] parts_at(f, r, j)) == v(j) by {
        lemma_lins_of(f, r, j, seq![Tab::Identity, Tab::LuOut]);
        assert(parts_at(f, r, j) =~= seq![j, lu_out_column(e)[j]]);
    }
    lemma_counted_block(f, r, h, idx, v);
    lemma_sum_eq(n, g, |k: int| v(idx[k]));
    reveal_with_fuel(blocks_sum, 2);
}

/// The entries on the prefix columns fetch their rows.
#[verifier::rlimit(40)]
#[verifier::spinoff_prover]
pub proof fn lemma_eq_prefix_entries(e: EncodingView, c: CircuitView, h: spec_fn(Seq<int>) -> int)
    requires
        registrable(e, c),
    ensures
        sides_meet(circuit_vectors(e, c), eq_prefix_entries(circuit_profile(e, c)), h),
{
    let f = circuit_vectors(e, c);
    let p = circuit_profile(e, c);
    let x = eq_prefix_entries(p);
    let l = x.left[0];
    let r = x.right[0];
    let gr = prefix_group(c);
    let n = gr.row.len() as int;
    let len = wide(n);
    let rlen = wide(e.cons_line);
    lemma_prefix_group(c, 1);
    lemma_log2_ceil(n);
    lemma_log2_ceil(e.cons_line);
    let v = |j: int| h(seq![j, is_lin_column(e)[j]]);
    let idx = gr.row;
    let g = |t: int| v(idx[t]);
    assert forall|t: int| 0 <= t < len implies #[trigger] num_at(f, l, t) == if t < n {
        1int
    } else {
        0
    } by {
        let gt = cells_at(f, len, t);
        lemma_lins(gt);
        assert(gt(ind(0, n)) == if t < n {
            1int
        } else {
            0
        });
    }
    assert forall|t: int| 0 <= t < n implies num_at(f, l, t) * h(parts_at(f, l, t)) == #[trigger]
        g(t) by {
        lemma_lins_of(f, l, t, seq![Tab::BRow, Tab::BEntLin]);
        lemma_prefix_cells(e, c, t);
        assert(parts_at(f, l, t) =~= seq![idx[t], is_lin_column(e)[idx[t]]]);
        assert(num_at(f, l, t) == 1);
        assert(1 * g(t) == g(t));
    }
    lemma_block_first(f, l, h, n, g);
    assert(below(idx, rlen));
    assert forall|j: int| 0 <= j < rlen implies #[trigger] num_at(f, r, j) == counts(
        idx,
        rlen,
    )[j] by {
        lemma_lins(cells_at(f, rlen, j));
        assert(cells_at(f, rlen, j)(Tab::BCnt) == counts(idx, rlen)[j]);
    }
    lemma_rows_len(e, e.opcode.len() as int);
    assert forall|j: int| 0 <= j < rlen implies h(#[trigger] parts_at(f, r, j)) == v(j) by {
        lemma_lins_of(f, r, j, seq![Tab::Identity, Tab::IsLin]);
        assert(parts_at(f, r, j) =~= seq![j, is_lin_column(e)[j]]);
    }
    lemma_counted_block(f, r, h, idx, v);
    lemma_sum_eq(n, g, |k: int| v(idx[k]));
    reveal_with_fuel(blocks_sum, 2);
}

/// The weight of a single part.
pub open spec fn single(h: spec_fn(Seq<int>) -> int) -> spec_fn(int) -> int {
    |j: int| h(seq![j])
}

/// The weights of some numbers, added up.
pub open spec fn total_of(s: Seq<int>, v: spec_fn(int) -> int) -> int {
    sum_to(s.len() as int, |k: int| v(s[k]))
}

proof fn lemma_total_concat(a: Seq<int>, b: Seq<int>, v: spec_fn(int) -> int)
    ensures
        total_of(a + b, v) == total_of(a, v) + total_of(b, v),
{
    lemma_sum_concat(a, b, v);
    let s = a + b;
    lemma_sum_eq(s.len() as int, |k: int| v(s[k]), |k: int| v((a + b)[k]));
    lemma_sum_eq(a.len() as int, |k: int| v(a[k]), |k: int| v(a[k]));
    lemma_sum_eq(b.len() as int, |k: int| v(b[k]), |k: int| v(b[k]));
}

proof fn lemma_range_block(
    e: EncodingView,
    c: CircuitView,
    log: int,
    t: Tab,
    col: Seq<int>,
    h: spec_fn(Seq<int>) -> int,
)
    requires
        t.committed(),
        circuit_vectors(e, c)(t) == col,
        col.len() == pow2(log as nat),
    ensures
        block_sum(circuit_vectors(e, c), range_block(log, t), h) == total_of(col, single(h)),
{
    let f = circuit_vectors(e, c);
    let b = range_block(log, t);
    let len = pow2(log as nat) as int;
    let v = single(h);
    let g = |k: int| v(col[k]);
    assert forall|x: int| 0 <= x < len implies num_at(f, b, x) * h(parts_at(f, b, x)) == #[trigger]
        g(x) by {
        let gx = cells_at(f, len, x);
        lemma_lins(gx);
        assert(gx(Tab::One) == 1);
        assert(gx(t) == col[x]);
        assert(parts_at(f, b, x) =~= seq![col[x]]);
        assert(1 * g(x) == g(x));
    }
    lemma_block_first(f, b, h, len, g);
    lemma_sum_eq(len, g, |k: int| v(col[k]));
}

/// What is left is within the range.
#[verifier::rlimit(60)]
#[verifier::spinoff_prover]
pub proof fn lemma_eq_ranges(e: EncodingView, c: CircuitView, h: spec_fn(Seq<int>) -> int)
    requires
        registrable(e, c),
        slacks_fit(e, c),
    ensures
        sides_meet(circuit_vectors(e, c), eq_ranges(circuit_profile(e, c)), h),
{
    let f = circuit_vectors(e, c);
    let p = circuit_profile(e, c);
    let x = eq_ranges(p);
    let n = p.x_len;
    let v = single(h);
    let q = e.opcode.len() as int;
    lemma_prefix_group(c, 1);
    lemma_suffix_group(c, 1);
    lemma_rows_len(e, q);
    lemma_x_rows_len(e, NUM_FAMILIES as int);
    lemma_log2_ceil(p.entry_len);
    lemma_log2_ceil(p.b_pre_len);
    lemma_log2_ceil(e.cons_line);
    lemma_log2_ceil(n);
    let cons = log2_ceil(p.cons_line) as int;
    let fam = log2_ceil(p.x_len) as int;
    let a = f(Tab::Diff);
    let b = f(Tab::DiffPre);
    let lo = f(Tab::RowSlackLo);
    let hi = f(Tab::RowSlackHi);
    let d0 = f(Tab::XDigit(0));
    let d1 = f(Tab::XDigit(1));
    let d2 = f(Tab::XDigit(2));
    let d3 = f(Tab::XDigit(3));
    let s0 = f(Tab::XDigitSlack(0));
    let s1 = f(Tab::XDigitSlack(1));
    let s2 = f(Tab::XDigitSlack(2));
    let s3 = f(Tab::XDigitSlack(3));
    lemma_range_block(e, c, log2_ceil(p.entry_len) as int, Tab::Diff, a, h);
    lemma_range_block(e, c, log2_ceil(p.b_pre_len) as int, Tab::DiffPre, b, h);
    lemma_range_block(e, c, cons, Tab::RowSlackLo, lo, h);
    lemma_range_block(e, c, cons, Tab::RowSlackHi, hi, h);
    lemma_range_block(e, c, fam, Tab::XDigit(0), d0, h);
    lemma_range_block(e, c, fam, Tab::XDigit(1), d1, h);
    lemma_range_block(e, c, fam, Tab::XDigit(2), d2, h);
    lemma_range_block(e, c, fam, Tab::XDigit(3), d3, h);
    lemma_range_block(e, c, fam, Tab::XDigitSlack(0), s0, h);
    lemma_range_block(e, c, fam, Tab::XDigitSlack(1), s1, h);
    lemma_range_block(e, c, fam, Tab::XDigitSlack(2), s2, h);
    lemma_range_block(e, c, fam, Tab::XDigitSlack(3), s3, h);
    let all = slacks_of(e, c, n);
    assert(all =~= a + b + lo + hi + d0 + d1 + d2 + d3 + s0 + s1 + s2 + s3);
    lemma_total_concat(a, b, v);
    lemma_total_concat(a + b, lo, v);
    lemma_total_concat(a + b + lo, hi, v);
    lemma_total_concat(a + b + lo + hi, d0, v);
    lemma_total_concat(a + b + lo + hi + d0, d1, v);
    lemma_total_concat(a + b + lo + hi + d0 + d1, d2, v);
    lemma_total_concat(a + b + lo + hi + d0 + d1 + d2, d3, v);
    lemma_total_concat(a + b + lo + hi + d0 + d1 + d2 + d3, s0, v);
    lemma_total_concat(a + b + lo + hi + d0 + d1 + d2 + d3 + s0, s1, v);
    lemma_total_concat(a + b + lo + hi + d0 + d1 + d2 + d3 + s0 + s1, s2, v);
    lemma_total_concat(a + b + lo + hi + d0 + d1 + d2 + d3 + s0 + s1 + s2, s3, v);
    let r = x.right[0];
    let rlen = pow2(p.log_range as nat) as int;
    assert forall|j: int| 0 <= j < rlen implies #[trigger] num_at(f, r, j) == counts(
        all,
        rlen,
    )[j] by {
        lemma_lins(cells_at(f, rlen, j));
        assert(cells_at(f, rlen, j)(Tab::RangeCnt) == counts(all, rlen)[j]);
    }
    assert forall|j: int| 0 <= j < rlen implies h(#[trigger] parts_at(f, r, j)) == v(j) by {
        lemma_lins_of(f, r, j, seq![Tab::Identity]);
        assert(parts_at(f, r, j) =~= seq![j]);
    }
    lemma_counted_block(f, r, h, all, v);
    lemma_sum_eq(all.len() as int, |k: int| v(all[k]), |k: int| v(all[k]));
    reveal_with_fuel(blocks_sum, 13);
    assert(blocks_sum(f, x.right, h, 1) == block_sum(f, r, h));
    assert(x.left.len() == 12);
}

/// The entries of a family among the entries of all.
pub proof fn lemma_x_rows_of(e: EncodingView, n: int, k: int, y: int)
    requires
        families_fit(e),
        0 <= k < n <= NUM_FAMILIES,
        0 <= y < family_rows(e, families_of()[k], e.opcode.len() as int).len(),
    ensures
        cumulated(family_lens_of(e), k) + y < x_rows(e, n).len(),
        x_rows(e, n)[cumulated(family_lens_of(e), k) + y] == family_rows(
            e,
            families_of()[k],
            e.opcode.len() as int,
        )[y],
        0 <= cumulated(family_lens_of(e), k),
    decreases n,
{
    lemma_x_rows_len(e, n - 1);
    lemma_x_rows_len(e, n);
    lemma_lens(e);
    lemma_cumulated(family_lens_of(e), k, NUM_FAMILIES as int);
    lemma_cumulated(family_lens_of(e), n - 1, NUM_FAMILIES as int);
    if k < n - 1 {
        lemma_x_rows_of(e, n - 1, k, y);
    }
}

/// The entries of an instruction among those of a family.
pub proof fn lemma_family_rows_of(e: EncodingView, k: int, n: int, i: int, t: int)
    requires
        families_fit(e),
        0 <= k < NUM_FAMILIES,
        0 <= i < n <= e.opcode.len(),
        0 <= t < share(e, families_of()[k], i),
    ensures
        0 <= share_sum(e, families_of()[k], i),
        share_sum(e, families_of()[k], i) + t < family_rows(e, families_of()[k], n).len(),
        family_rows(e, families_of()[k], n)[share_sum(e, families_of()[k], i) + t] == x_row(
            e,
            families_of()[k],
            i,
            t,
        ),
    decreases n,
{
    lemma_family_rows_len(e, k, n - 1);
    lemma_family_rows_len(e, k, n);
    lemma_share_sum(e, k, i, n);
    if i < n - 1 {
        lemma_family_rows_of(e, k, n - 1, i, t);
    }
}

/// The indicator of a family.
pub proof fn lemma_fam_num(e: EncodingView, c: CircuitView, k: int, x: int)
    requires
        registrable(e, c),
        0 <= k < NUM_FAMILIES,
        0 <= x < wide(circuit_profile(e, c).x_len),
    ensures
        ({
            let p = circuit_profile(e, c);
            let lo = cumulated(p.family_lens, k);
            column_of(circuit_vectors(e, c), fam_ind(p, k), wide(p.x_len))[x] == if lo <= x < lo
                + p.family_lens[k] {
                1int
            } else {
                0
            }
        }),
        0 <= cumulated(circuit_profile(e, c).family_lens, k),
        0 <= circuit_profile(e, c).family_lens[k],
        cumulated(circuit_profile(e, c).family_lens, k) + circuit_profile(e, c).family_lens[k]
            <= circuit_profile(e, c).x_len <= wide(circuit_profile(e, c).x_len),
{
    lemma_lens(e);
    let lens = family_lens_of(e);
    lemma_log2_ceil(circuit_profile(e, c).x_len);
    lemma_cumulated(lens, k, NUM_FAMILIES as int);
    lemma_cumulated(lens, k + 1, NUM_FAMILIES as int);
}

/// The entries of a family carry the operands and counters of their instructions.
#[verifier::rlimit(60)]
#[verifier::spinoff_prover]
pub proof fn lemma_eq_family(e: EncodingView, c: CircuitView, h: spec_fn(Seq<int>) -> int, k: int)
    requires
        registrable(e, c),
        0 <= k < NUM_FAMILIES,
    ensures
        sides_meet(circuit_vectors(e, c), eq_family(circuit_profile(e, c), k), h),
{
    let f = circuit_vectors(e, c);
    let p = circuit_profile(e, c);
    let x = eq_family(p, k);
    let q = e.opcode.len() as int;
    let fam = families_of()[k];
    let l = x.left[0];
    let r = x.right[0];
    let len = wide(p.x_len);
    let lo = cumulated(p.family_lens, k);
    let n = p.family_lens[k];
    lemma_lens(e);
    lemma_log2_ceil(q + 1);
    lemma_log2_ceil(p.x_len);
    lemma_family_rows_len(e, k, q);
    let rows = family_rows(e, fam, q);
    let key = |w: XRow|
        h(
            seq![
                w.ptr,
                w.base,
                w.cr,
                w.out,
                w.aux,
                w.ops[0],
                w.ops[1],
                w.ops[2],
                w.ops[3],
                w.ops[4],
                w.ops[5],
            ],
        );
    let g = |y: int| key(rows[y]);
    assert(n == rows.len());
    let tabs = seq![
        Tab::XPtr,
        Tab::XBase,
        Tab::XCr,
        Tab::XOut,
        Tab::XAux,
        Tab::XOp(0),
        Tab::XOp(1),
        Tab::XOp(2),
        Tab::XOp(3),
        Tab::XOp(4),
        Tab::XOp(5),
    ];
    lemma_pow2_pos(log2_ceil(p.x_len));
    lemma_fam_num(e, c, k, 0);
    assert forall|t: int| 0 <= t < len implies #[trigger] num_at(f, l, t) == if lo <= t < lo + n {
        1int
    } else {
        0
    } by {
        lemma_lins(cells_at(f, len, t));
        lemma_fam_num(e, c, k, t);
        assert(cells_at(f, len, t)(fam_ind(p, k)) == if lo <= t < lo + n {
            1int
        } else {
            0
        });
    }
    assert forall|y: int| 0 <= y < n implies num_at(f, l, lo + y) * h(parts_at(f, l, lo + y))
        == #[trigger] g(y) by {
        let t = lo + y;
        lemma_x_rows_of(e, NUM_FAMILIES as int, k, y);
        lemma_lins_of(f, l, t, tabs);
        lemma_family_cells(e, c, t);
        let w = rows[y];
        assert(parts_at(f, l, t) =~= seq![
            w.ptr,
            w.base,
            w.cr,
            w.out,
            w.aux,
            w.ops[0],
            w.ops[1],
            w.ops[2],
            w.ops[3],
            w.ops[4],
            w.ops[5],
        ]);
        assert(num_at(f, l, t) == 1);
        assert(1 * g(y) == g(y));
    }
    lemma_block_range(f, l, h, lo, n, g);
    let start = |i: int| share_sum(e, fam, i);
    assert forall|i: int, j: int| 0 <= i <= j <= q implies #[trigger] start(i) <= #[trigger] start(
        j,
    ) by {
        lemma_share_sum(e, k, i, j);
    }
    let kk = |i: int| key(x_row(e, fam, i, 0));
    assert forall|i: int, s: int|
        0 <= i < q && 0 <= s < start(i + 1) - start(i) implies g(#[trigger] run_at(start, i, s))
        == kk(i) by {
        lemma_family_rows_of(e, k, q, i, s);
    }
    lemma_sum_runs(q, start, g, kk);
    let d = |i: int| (start(i + 1) - start(i)) * kk(i);
    let rtabs = seq![
        Tab::Identity,
        Tab::Base(k as usize),
        Tab::Ctr(CTR_CR),
        Tab::Ctr(CTR_OUT),
        Tab::Ctr(CTR_AUX),
        Tab::Opn(0),
        Tab::Opn(1),
        Tab::Opn(2),
        Tab::Opn(3),
        Tab::Opn(4),
        Tab::Opn(5),
    ];
    assert forall|i: int| 0 <= i < q implies num_at(f, r, i) * h(parts_at(f, r, i)) == #[trigger]
        d(i) by {
        let gi = cells_at(f, wide(q + 1), i);
        lemma_lins(gi);
        lemma_lins_of(f, r, i, rtabs);
        lemma_instr_cells(e, c, i);
        assert(gi(Tab::Mult(k as usize)) == share(e, fam, i));
        let w = x_row(e, fam, i, 0);
        assert(parts_at(f, r, i) =~= seq![
            w.ptr,
            w.base,
            w.cr,
            w.out,
            w.aux,
            w.ops[0],
            w.ops[1],
            w.ops[2],
            w.ops[3],
            w.ops[4],
            w.ops[5],
        ]);
    }
    assert forall|i: int| q <= i < wide(q + 1) implies #[trigger] num_at(f, r, i) == 0 by {
        lemma_lins(cells_at(f, wide(q + 1), i));
        lemma_instr_cells(e, c, i);
        assert(cells_at(f, wide(q + 1), i)(Tab::Mult(k as usize)) == 0);
    }
    lemma_block_first(f, r, h, q, d);
    reveal_with_fuel(blocks_sum, 2);
}

} // verus!
