//! Sums over the entries of the matrices of a circuit.
use vstd::prelude::*;
use vstd::arithmetic::power2::*;
use crate::circuit::{CircuitView, Entry};
use crate::sparse::{
    Quad, all_suffix_quads, circuit_fits, cumulated, lemma_suffix_group, moved, not_empty, quads,
    row_base_log, row_quads, suffix_group, suffix_lens, suffix_quads,
};
use crate::sums::{lemma_sum_add, lemma_sum_eq, lemma_sum_split, sum_to};
use super::witness::after;

verus! {

/// The weight of an entry that was collected from the columns from `lo` on.
pub open spec fn quad_weight(psi: spec_fn(int, Entry) -> int, lo: int) -> spec_fn(Quad) -> int {
    |q: Quad| psi(q.row, Entry { col: q.col + lo, val: q.val, pow: q.pow })
}

/// The weights of some entries, added up.
pub open spec fn quads_total(q: Seq<Quad>, phi: spec_fn(Quad) -> int) -> int {
    sum_to(q.len() as int, |k: int| phi(q[k]))
}

/// A weight that counts for the columns of a range only.
pub open spec fn kept(en: Entry, lo: int, hi: int, x: int) -> int {
    if lo <= en.col < hi {
        x
    } else {
        0
    }
}

/// The weights of the entries of a row on the columns of a range.
pub open spec fn row_part(
    row: Seq<Entry>,
    r: int,
    lo: int,
    hi: int,
    psi: spec_fn(int, Entry) -> int,
) -> int {
    sum_to(row.len() as int, |k: int| kept(row[k], lo, hi, psi(r, row[k])))
}

/// The weights of the entries of a row.
pub open spec fn row_total(row: Seq<Entry>, r: int, psi: spec_fn(int, Entry) -> int) -> int {
    sum_to(row.len() as int, |k: int| psi(r, row[k]))
}

pub proof fn lemma_total_join(a: Seq<Quad>, b: Seq<Quad>, phi: spec_fn(Quad) -> int)
    ensures
        quads_total(a + b, phi) == quads_total(a, phi) + quads_total(b, phi),
{
    let c = a + b;
    let g = |k: int| phi(c[k]);
    let n = a.len() as int;
    let m = b.len() as int;
    lemma_sum_split(n, m, g);
    lemma_sum_eq(n, g, |k: int| phi(a[k]));
    lemma_sum_eq(m, |i: int| g(n + i), |k: int| phi(b[k]));
}

proof fn lemma_row_quads_total(
    row: Seq<Entry>,
    i: int,
    lo: int,
    hi: int,
    n: int,
    psi: spec_fn(int, Entry) -> int,
)
    requires
        0 <= n <= row.len(),
    ensures
        quads_total(row_quads(row, i, lo, hi, n), quad_weight(psi, lo)) == sum_to(
            n,
            |k: int| kept(row[k], lo, hi, psi(i, row[k])),
        ),
    decreases n,
{
    if n > 0 {
        lemma_row_quads_total(row, i, lo, hi, n - 1, psi);
        let before = row_quads(row, i, lo, hi, n - 1);
        let en = row[n - 1];
        let phi = quad_weight(psi, lo);
        if lo <= en.col < hi {
            let q = Quad { row: i, col: en.col - lo, val: en.val, pow: en.pow };
            assert(row_quads(row, i, lo, hi, n) =~= before + seq![q]);
            lemma_total_join(before, seq![q], phi);
            reveal_with_fuel(sum_to, 2);
            assert(quads_total(seq![q], phi) == phi(q));
            assert(Entry { col: q.col + lo, val: q.val, pow: q.pow } == en);
        }
    }
}

/// The entries that are collected from a matrix are those of its rows.
pub proof fn lemma_quads_total(
    rows: Seq<Seq<Entry>>,
    lo: int,
    hi: int,
    n: int,
    psi: spec_fn(int, Entry) -> int,
)
    requires
        0 <= n <= rows.len(),
    ensures
        quads_total(quads(rows, lo, hi, n), quad_weight(psi, lo)) == sum_to(
            n,
            |r: int| row_part(rows[r], r, lo, hi, psi),
        ),
    decreases n,
{
    if n > 0 {
        lemma_quads_total(rows, lo, hi, n - 1, psi);
        let row = rows[n - 1];
        lemma_row_quads_total(row, n - 1, lo, hi, row.len() as int, psi);
        lemma_total_join(
            quads(rows, lo, hi, n - 1),
            row_quads(row, n - 1, lo, hi, row.len() as int),
            quad_weight(psi, lo),
        );
        lemma_sum_eq(
            row.len() as int,
            |k: int| kept(row[k], lo, hi, psi(n - 1, row[k])),
            |k: int| kept(rows[n - 1][k], lo, hi, psi(n - 1, rows[n - 1][k])),
        );
    }
}

/// A row with all its columns in the range counts as a whole.
pub proof fn lemma_row_whole(
    row: Seq<Entry>,
    r: int,
    lo: int,
    hi: int,
    psi: spec_fn(int, Entry) -> int,
)
    requires
        forall|k: int| 0 <= k < row.len() ==> lo <= (#[trigger] row[k]).col < hi,
    ensures
        row_part(row, r, lo, hi, psi) == row_total(row, r, psi),
{
    let a = |k: int| kept(row[k], lo, hi, psi(r, row[k]));
    let b = |k: int| psi(r, row[k]);
    assert forall|k: int| 0 <= k < row.len() implies #[trigger] a(k) == b(k) by {
        assert(lo <= row[k].col < hi);
    }
    lemma_sum_eq(row.len() as int, a, b);
}

/// A row counts as a whole on two ranges that cover its columns.
pub proof fn lemma_row_both(
    row: Seq<Entry>,
    r: int,
    mid: int,
    hi: int,
    psi: spec_fn(int, Entry) -> int,
)
    requires
        mid <= hi,
        forall|k: int| 0 <= k < row.len() ==> 0 <= (#[trigger] row[k]).col < hi,
    ensures
        row_part(row, r, 0, mid, psi) + row_part(row, r, mid, hi, psi) == row_total(row, r, psi),
{
    let a = |k: int| kept(row[k], 0, mid, psi(r, row[k]));
    let b = |k: int| kept(row[k], mid, hi, psi(r, row[k]));
    let d = |k: int| psi(r, row[k]);
    let n = row.len() as int;
    lemma_sum_add(n, a, b);
    assert forall|k: int| 0 <= k < n implies #[trigger] d(k) == a(k) + b(k) by {
        assert(0 <= row[k].col < hi);
    }
    lemma_sum_eq(n, d, |k: int| a(k) + b(k));
    lemma_sum_eq(n, a, |k: int| kept(row[k], 0, mid, psi(r, row[k])));
    lemma_sum_eq(n, b, |k: int| kept(row[k], mid, hi, psi(r, row[k])));
}

/// The matrices of a circuit, in order.
pub open spec fn matrix_of(c: CircuitView, m: int) -> Seq<Seq<Entry>> {
    if m == 0 {
        c.a
    } else if m == 1 {
        c.b
    } else if m == 2 {
        c.c
    } else if m == 3 {
        c.d
    } else {
        c.e
    }
}

/// How far the rows of a matrix are moved.
pub open spec fn row_shift(c: CircuitView, m: int) -> int {
    if m < 3 {
        0
    } else {
        pow2((suffix_group(c).log_row - 1) as nat) as int
    }
}

/// The entries of a matrix among those of all.
pub proof fn lemma_segment(c: CircuitView, m: int, k: int)
    requires
        circuit_fits(c, 1),
        0 <= m < 5,
        0 <= k < suffix_quads(c, matrix_of(c, m)).len(),
    ensures
        ({
            let g = suffix_group(c);
            let q = suffix_quads(c, matrix_of(c, m))[k];
            let t = cumulated(suffix_lens(c), m) + k;
            &&& 0 <= t < g.row.len()
            &&& g.row[t] == q.row + row_shift(c, m)
            &&& g.col[t] == q.col
            &&& g.val[t] == q.val
            &&& g.pow[t] == q.pow
        }),
{
    reveal(suffix_group);
    reveal_with_fuel(cumulated, 6);
    lemma_suffix_group(c, 1);
    let lens = suffix_lens(c);
    let all = all_suffix_quads(c);
    let flag = pow2(row_base_log(c)) as int;
    let t = cumulated(lens, m) + k;
    assert(all.len() == cumulated(lens, 5));
    assert(not_empty(all) == all);
    if m == 0 {
        assert(all[t] == moved(suffix_quads(c, c.a), 0)[k]);
    } else if m == 1 {
        assert(all[t] == moved(suffix_quads(c, c.b), 0)[k]);
    } else if m == 2 {
        assert(all[t] == moved(suffix_quads(c, c.c), 0)[k]);
    } else if m == 3 {
        assert(all[t] == moved(suffix_quads(c, c.d), flag)[k]);
    } else {
        assert(all[t] == moved(suffix_quads(c, c.e), flag)[k]);
    }
}

/// The number of entries of a matrix on the suffix columns.
pub proof fn lemma_segment_len(c: CircuitView, m: int)
    requires
        0 <= m < 5,
    ensures
        suffix_lens(c)[m] == suffix_quads(c, matrix_of(c, m)).len(),
        after(c, m) == cumulated(suffix_lens(c), m) + suffix_lens(c)[m],
        m > 0 ==> cumulated(suffix_lens(c), m) == after(c, m - 1),
        0 <= cumulated(suffix_lens(c), m),
{
    reveal_with_fuel(cumulated, 6);
}

/// The entry that was collected is one of the matrix.
pub proof fn lemma_quad_source(rows: Seq<Seq<Entry>>, lo: int, hi: int, n: int, k: int) -> (at: (
    int,
    int,
))
    requires
        0 <= n <= rows.len(),
        0 <= k < quads(rows, lo, hi, n).len(),
    ensures
        ({
            let q = quads(rows, lo, hi, n)[k];
            &&& 0 <= at.0 < n
            &&& 0 <= at.1 < rows[at.0].len()
            &&& q.row == at.0
            &&& q.col + lo == rows[at.0][at.1].col
            &&& q.val == rows[at.0][at.1].val
            &&& q.pow == rows[at.0][at.1].pow
            &&& 0 <= q.col && q.col + lo < hi
        }),
    decreases n,
{
    let before = quads(rows, lo, hi, n - 1);
    let row = rows[n - 1];
    if k < before.len() {
        lemma_quad_source(rows, lo, hi, n - 1, k)
    } else {
        let j = lemma_row_quad_source(row, n - 1, lo, hi, row.len() as int, k - before.len());
        (n - 1, j)
    }
}

proof fn lemma_row_quad_source(row: Seq<Entry>, i: int, lo: int, hi: int, n: int, k: int) -> (j:
    int)
    requires
        0 <= n <= row.len(),
        0 <= k < row_quads(row, i, lo, hi, n).len(),
    ensures
        ({
            let q = row_quads(row, i, lo, hi, n)[k];
            &&& 0 <= j < n
            &&& q.row == i
            &&& q.col + lo == row[j].col
            &&& q.val == row[j].val
            &&& q.pow == row[j].pow
            &&& 0 <= q.col && q.col + lo < hi
        }),
    decreases n,
{
    let before = row_quads(row, i, lo, hi, n - 1);
    if k < before.len() {
        lemma_row_quad_source(row, i, lo, hi, n - 1, k)
    } else {
        n - 1
    }
}

} // verus!
