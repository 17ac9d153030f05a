//! Rows that hold the same entries equally often.
use vstd::prelude::*;
use crate::circuit::Entry;
use crate::field::{cong, lemma_residue_small, modulus};
use crate::sparse::{one_if, quads};
use crate::sums::{lemma_sum_eq, lemma_sum_scale, lemma_sum_single, lemma_sum_zero, sum_to};
use super::encode::{picked, rows_agree, same_elements};
use super::matrix_laws::{lemma_quads_total, quad_weight, quads_total, row_part, row_total};

verus! {

/// An entry is in a column, for a power, with a coefficient.
pub open spec fn entry_is(en: Entry, col: int, val: int, pow: int) -> bool {
    en.col == col && en.pow == pow && cong(en.val, val)
}

/// How often an entry is in a row.
pub open spec fn tally(row: Seq<Entry>, col: int, val: int, pow: int) -> int {
    sum_to(row.len() as int, |k: int| one_if(entry_is(row[k], col, val, pow)))
}

/// The entries of a row are in different columns.
pub open spec fn columns_differ(row: Seq<Entry>) -> bool {
    forall|j: int, k: int|
        0 <= j < k < row.len() ==> (#[trigger] row[j]).col != (#[trigger] row[k]).col
}

/// A sum of zeros and ones.
pub proof fn lemma_sum_bits(n: int, f: spec_fn(int) -> int)
    requires
        0 <= n,
        forall|i: int| 0 <= i < n ==> 0 <= #[trigger] f(i) <= 1,
    ensures
        0 <= sum_to(n, f) <= n,
        forall|i: int| 0 <= i < n && #[trigger] f(i) == 1 ==> sum_to(n, f) >= 1,
        forall|i: int, j: int|
            0 <= i < j < n && #[trigger] f(i) == 1 && #[trigger] f(j) == 1 ==> sum_to(n, f) >= 2,
    decreases n,
{
    if n > 0 {
        lemma_sum_bits(n - 1, f);
    }
}

/// A sum of zeros and ones that is not zero has a one.
pub proof fn lemma_bit(n: int, f: spec_fn(int) -> int) -> (k: int)
    requires
        sum_to(n, f) != 0,
        forall|i: int| 0 <= i < n ==> 0 <= #[trigger] f(i) <= 1,
    ensures
        0 <= k < n,
        f(k) == 1,
    decreases n,
{
    if n > 0 && f(n - 1) == 1 {
        n - 1
    } else {
        lemma_bit(n - 1, f)
    }
}

/// A sum of zeros and ones that is more than one has two ones.
pub proof fn lemma_two_bits(n: int, f: spec_fn(int) -> int) -> (at: (int, int))
    requires
        sum_to(n, f) >= 2,
        forall|i: int| 0 <= i < n ==> 0 <= #[trigger] f(i) <= 1,
    ensures
        0 <= at.0 < at.1 < n,
        f(at.0) == 1,
        f(at.1) == 1,
    decreases n,
{
    if n > 0 && f(n - 1) == 1 {
        (lemma_bit(n - 1, f), n - 1)
    } else {
        lemma_two_bits(n - 1, f)
    }
}

proof fn lemma_picked_none(row: Seq<Entry>, col: int, pow: int, n: int)
    requires
        0 <= n <= row.len(),
        forall|k: int| 0 <= k < n ==> !((#[trigger] row[k]).col == col && row[k].pow == pow),
    ensures
        picked(row, col, pow, n) == Seq::<int>::empty(),
    decreases n,
{
    if n > 0 {
        lemma_picked_none(row, col, pow, n - 1);
        assert(!(row[n - 1].col == col && row[n - 1].pow == pow));
    }
}

proof fn lemma_picked_one(row: Seq<Entry>, col: int, pow: int, k: int, n: int)
    requires
        0 <= k < n <= row.len(),
        row[k].col == col,
        row[k].pow == pow,
        forall|j: int|
            0 <= j < n && j != k ==> !((#[trigger] row[j]).col == col && row[j].pow == pow),
    ensures
        picked(row, col, pow, n) == seq![row[k].val],
    decreases n,
{
    if k == n - 1 {
        lemma_picked_none(row, col, pow, n - 1);
        assert(picked(row, col, pow, n) =~= seq![row[k].val]);
    } else {
        lemma_picked_one(row, col, pow, k, n - 1);
        assert(!(row[n - 1].col == col && row[n - 1].pow == pow));
    }
}

/// What a row holds is counted.
proof fn lemma_tally(row: Seq<Entry>, col: int, val: int, pow: int)
    ensures
        0 <= tally(row, col, val, pow) <= row.len(),
        forall|k: int|
            0 <= k < row.len() && entry_is(#[trigger] row[k], col, val, pow) ==> tally(
                row,
                col,
                val,
                pow,
            ) >= 1,
        forall|j: int, k: int|
            0 <= j < k < row.len() && entry_is(#[trigger] row[j], col, val, pow) && entry_is(
                #[trigger] row[k],
                col,
                val,
                pow,
            ) ==> tally(row, col, val, pow) >= 2,
{
    let f = |k: int| one_if(entry_is(row[k], col, val, pow));
    lemma_sum_bits(row.len() as int, f);
    assert forall|k: int| 0 <= k < row.len() && entry_is(#[trigger] row[k], col, val, pow) implies
        tally(row, col, val, pow) >= 1 by {
        assert(f(k) == 1);
    }
    assert forall|j: int, k: int|
        0 <= j < k < row.len() && entry_is(#[trigger] row[j], col, val, pow) && entry_is(
            #[trigger] row[k],
            col,
            val,
            pow,
        ) implies tally(row, col, val, pow) >= 2 by {
        assert(f(j) == 1 && f(k) == 1);
    }
}

/// What is counted is in the row.
proof fn lemma_tallied(row: Seq<Entry>, col: int, val: int, pow: int) -> (k: int)
    requires
        tally(row, col, val, pow) >= 1,
    ensures
        0 <= k < row.len(),
        entry_is(row[k], col, val, pow),
{
    let f = |k: int| one_if(entry_is(row[k], col, val, pow));
    lemma_bit(row.len() as int, f)
}

/// A row that holds each entry as often as a row with different columns agrees with it.
pub proof fn lemma_tallies_agree(a: Seq<Entry>, b: Seq<Entry>)
    requires
        columns_differ(b),
        forall|col: int, val: int, pow: int|
            #[trigger] tally(a, col, val, pow) == tally(b, col, val, pow),
    ensures
        rows_agree(a, b),
{
    assert forall|col: int, pow: int|
        same_elements(
            #[trigger] picked(a, col, pow, a.len() as int),
            picked(b, col, pow, b.len() as int),
        ) by {
        if exists|k: int| 0 <= k < a.len() && (#[trigger] a[k]).col == col && a[k].pow == pow {
            let k = choose|k: int|
                0 <= k < a.len() && (#[trigger] a[k]).col == col && a[k].pow == pow;
            let v = a[k].val;
            lemma_tally(a, col, v, pow);
            assert(entry_is(a[k], col, v, pow));
            assert(tally(a, col, v, pow) == tally(b, col, v, pow));
            let j = lemma_tallied(b, col, v, pow);
            assert forall|i: int| 0 <= i < b.len() && i != j implies !((#[trigger] b[i]).col == col
                && b[i].pow == pow) by {
                if i < j {
                    assert(b[i].col != b[j].col);
                } else {
                    assert(b[j].col != b[i].col);
                }
            }
            assert forall|i: int| 0 <= i < a.len() && i != k implies !((#[trigger] a[i]).col == col
                && a[i].pow == pow) by {
                if a[i].col == col && a[i].pow == pow {
                    let u = a[i].val;
                    lemma_tally(a, col, u, pow);
                    assert(entry_is(a[i], col, u, pow));
                    assert(tally(a, col, u, pow) == tally(b, col, u, pow));
                    let m = lemma_tallied(b, col, u, pow);
                    assert(m == j);
                    assert(cong(u, v));
                    assert(entry_is(a[i], col, v, pow));
                    let lo = if i < k {
                        i
                    } else {
                        k
                    };
                    let hi = if i < k {
                        k
                    } else {
                        i
                    };
                    assert(entry_is(a[lo], col, v, pow) && entry_is(a[hi], col, v, pow));
                    assert(tally(b, col, v, pow) >= 2);
                    let f = |k: int| one_if(entry_is(b[k], col, v, pow));
                    let at = lemma_two_bits(b.len() as int, f);
                    assert(b[at.0].col != b[at.1].col);
                }
            }
            lemma_picked_one(a, col, pow, k, a.len() as int);
            lemma_picked_one(b, col, pow, j, b.len() as int);
        } else {
            lemma_picked_none(a, col, pow, a.len() as int);
            assert forall|j: int| 0 <= j < b.len() implies !((#[trigger] b[j]).col == col
                && b[j].pow == pow) by {
                if b[j].col == col && b[j].pow == pow {
                    let v = b[j].val;
                    lemma_tally(b, col, v, pow);
                    assert(entry_is(b[j], col, v, pow));
                    assert(tally(a, col, v, pow) == tally(b, col, v, pow));
                    let k = lemma_tallied(a, col, v, pow);
                    assert(a[k].col == col && a[k].pow == pow);
                }
            }
            lemma_picked_none(b, col, pow, b.len() as int);
        }
    }
}

/// Integers between zero and the order of the field are the same element only if they are
/// equal.
pub proof fn lemma_small_same(a: int, b: int)
    requires
        0 <= a < modulus(),
        0 <= b < modulus(),
    ensures
        cong(a, b) <==> a == b,
{
    lemma_residue_small(a);
    lemma_residue_small(b);
}

/// Where only the entries of one row weigh anything, the entries of a matrix weigh what that
/// row does.
pub proof fn lemma_one_row(
    rows: Seq<Seq<Entry>>,
    lo: int,
    hi: int,
    r: int,
    psi: spec_fn(int, Entry) -> int,
)
    requires
        0 <= r < rows.len(),
        forall|i: int, en: Entry|
            0 <= i < rows.len() && i != r ==> #[trigger] psi(i, en) == 0,
    ensures
        quads_total(quads(rows, lo, hi, rows.len() as int), quad_weight(psi, lo)) == row_part(
            rows[r],
            r,
            lo,
            hi,
            psi,
        ),
{
    let n = rows.len() as int;
    let f = |i: int| row_part(rows[i], i, lo, hi, psi);
    lemma_quads_total(rows, lo, hi, n, psi);
    assert forall|i: int| 0 <= i < n && i != r implies #[trigger] f(i) == 0 by {
        let row = rows[i];
        let a = |k: int| super::matrix_laws::kept(row[k], lo, hi, psi(i, row[k]));
        assert forall|k: int| 0 <= k < row.len() implies #[trigger] a(k) == 0 by {
            assert(psi(i, row[k]) == 0);
        }
        lemma_sum_zero(row.len() as int, a);
    }
    lemma_sum_single(n, r, f);
    lemma_sum_eq(n, f, |r: int| row_part(rows[r], r, lo, hi, psi));
}

/// A row whose entries weigh a factor where they are the given one weighs that factor for
/// each time it is there.
pub proof fn lemma_row_tally(
    row: Seq<Entry>,
    r: int,
    x: int,
    col: int,
    val: int,
    pow: int,
    psi: spec_fn(int, Entry) -> int,
)
    requires
        forall|k: int|
            0 <= k < row.len() ==> psi(r, #[trigger] row[k]) == x * one_if(
                entry_is(row[k], col, val, pow),
            ),
    ensures
        row_total(row, r, psi) == x * tally(row, col, val, pow),
{
    let n = row.len() as int;
    let a = |k: int| psi(r, row[k]);
    let b = |k: int| one_if(entry_is(row[k], col, val, pow));
    let d = |k: int| x * b(k);
    assert forall|k: int| 0 <= k < n implies #[trigger] a(k) == d(k) by {
        assert(psi(r, row[k]) == x * one_if(entry_is(row[k], col, val, pow)));
    }
    lemma_sum_eq(n, a, d);
    lemma_sum_scale(n, x, b);
}

/// An entry that no entry of a row is like is not counted in it.
pub proof fn lemma_tally_zero(row: Seq<Entry>, col: int, val: int, pow: int)
    requires
        forall|k: int| 0 <= k < row.len() ==> !entry_is(#[trigger] row[k], col, val, pow),
    ensures
        tally(row, col, val, pow) == 0,
{
    let f = |k: int| one_if(entry_is(row[k], col, val, pow));
    assert forall|k: int| 0 <= k < row.len() implies #[trigger] f(k) == 0 by {
        assert(!entry_is(row[k], col, val, pow));
    }
    lemma_sum_zero(row.len() as int, f);
}

/// Counts that are less than the order of the field are equal if they are the same element.
pub proof fn lemma_tally_bound(row: Seq<Entry>, col: int, val: int, pow: int)
    ensures
        0 <= tally(row, col, val, pow) <= row.len(),
{
    lemma_tally(row, col, val, pow);
}

} // verus!
