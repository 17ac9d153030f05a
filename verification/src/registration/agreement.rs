//! Rows that agree have the same value.
use vstd::prelude::*;
use vstd::arithmetic::power::*;
use crate::circuit::{Entry, row_value};
use crate::field::{cong, lemma_cong_ops};
use crate::sums::{lemma_sum_eq, sum_to};
use super::encode::{picked, rows_agree, same_elements};

verus! {

/// What an entry adds to the value of its row.
spec fn term(x: Entry, z: Seq<int>, gamma: int) -> int {
    z[x.col] * x.val * pow(gamma, x.pow as nat)
}

/// An entry has a column and a power.
spec fn keyed(x: Entry, col: int, p: int) -> bool {
    x.col == col && x.pow == p
}

/// Leaving out a place takes away what stands there.
pub proof fn lemma_sum_remove(n: int, f: spec_fn(int) -> int, g: spec_fn(int) -> int, j: int)
    requires
        0 <= j < n,
        forall|k: int| 0 <= k < j ==> g(k) == #[trigger] f(k),
        forall|k: int| j <= k < n - 1 ==> #[trigger] g(k) == f(k + 1),
    ensures
        sum_to(n, f) == sum_to(n - 1, g) + f(j),
    decreases n,
{
    if j == n - 1 {
        lemma_sum_eq(j, f, g);
    } else {
        lemma_sum_remove(n - 1, f, g, j);
        assert(g(n - 2) == f(n - 1));
    }
}

proof fn lemma_value_remove(row: Seq<Entry>, j: int, z: Seq<int>, gamma: int)
    requires
        0 <= j < row.len(),
    ensures
        row_value(row, z, gamma) == row_value(row.remove(j), z, gamma) + term(row[j], z, gamma),
{
    let n = row.len() as int;
    let rest = row.remove(j);
    let f = |k: int| z[row[k].col] * row[k].val * pow(gamma, row[k].pow as nat);
    let g = |k: int| z[rest[k].col] * rest[k].val * pow(gamma, rest[k].pow as nat);
    assert forall|k: int| 0 <= k < j implies g(k) == #[trigger] f(k) by {
        assert(rest[k] == row[k]);
    }
    assert forall|k: int| j <= k < n - 1 implies #[trigger] g(k) == f(k + 1) by {
        assert(rest[k] == row[k + 1]);
    }
    lemma_sum_remove(n, f, g, j);
    assert(rest.len() == n - 1);
}

/// What is picked from the first entries depends on them alone.
proof fn lemma_picked_prefix(a: Seq<Entry>, b: Seq<Entry>, col: int, p: int, n: int)
    requires
        forall|k: int| 0 <= k < n ==> #[trigger] a[k] == b[k],
    ensures
        picked(a, col, p, n) == picked(b, col, p, n),
    decreases n,
{
    if n > 0 {
        lemma_picked_prefix(a, b, col, p, n - 1);
        assert(a[n - 1] == b[n - 1]);
    }
}

/// The last of the first `n` entries that is picked.
proof fn lemma_last(row: Seq<Entry>, col: int, p: int, n: int) -> (j: int)
    requires
        picked(row, col, p, n).len() > 0,
    ensures
        0 <= j < n,
        keyed(row[j], col, p),
        forall|k: int| j < k < n ==> !keyed(#[trigger] row[k], col, p),
        picked(row, col, p, n) == picked(row, col, p, j).push(row[j].val),
    decreases n,
{
    if keyed(row[n - 1], col, p) {
        n - 1
    } else {
        lemma_last(row, col, p, n - 1)
    }
}

/// What is picked when an entry with another key is left out.
proof fn lemma_picked_other(row: Seq<Entry>, j: int, col: int, p: int, n: int)
    requires
        0 <= j < n <= row.len(),
        !keyed(row[j], col, p),
    ensures
        picked(row.remove(j), col, p, n - 1) == picked(row, col, p, n),
    decreases n,
{
    if j == n - 1 {
        lemma_picked_prefix(row.remove(j), row, col, p, j);
    } else {
        lemma_picked_other(row, j, col, p, n - 1);
        assert(row.remove(j)[n - 2] == row[n - 1]);
    }
}

/// What is picked when the last entry with the key is left out.
proof fn lemma_picked_last(row: Seq<Entry>, j: int, col: int, p: int, n: int)
    requires
        0 <= j < n <= row.len(),
        forall|k: int| j < k < n ==> !keyed(#[trigger] row[k], col, p),
    ensures
        picked(row.remove(j), col, p, n - 1) == picked(row, col, p, j),
    decreases n,
{
    if j == n - 1 {
        lemma_picked_prefix(row.remove(j), row, col, p, j);
    } else {
        lemma_picked_last(row, j, col, p, n - 1);
        assert(row.remove(j)[n - 2] == row[n - 1]);
        assert(!keyed(row[n - 1], col, p));
    }
}

/// Rows that have the same coefficients in each column, for each power, have the same
/// value.
pub proof fn law_rows_agree(a: Seq<Entry>, b: Seq<Entry>, z: Seq<int>, gamma: int)
    requires
        rows_agree(a, b),
    ensures
        cong(row_value(a, z, gamma), row_value(b, z, gamma)),
    decreases a.len(),
{
    if a.len() == 0 {
        if b.len() > 0 {
            let x = b.last();
            assert(same_elements(
                picked(a, x.col, x.pow, 0),
                picked(b, x.col, x.pow, b.len() as int),
            ));
            assert(picked(b, x.col, x.pow, b.len() as int).len() > 0);
        }
    } else {
        let n = a.len() as int;
        let m = b.len() as int;
        let x = a.last();
        assert(same_elements(picked(a, x.col, x.pow, n), picked(b, x.col, x.pow, m)));
        assert(picked(a, x.col, x.pow, n) == picked(a, x.col, x.pow, n - 1).push(x.val));
        let j = lemma_last(b, x.col, x.pow, m);
        let a1 = a.remove(n - 1);
        let b1 = b.remove(j);
        assert(rows_agree(a1, b1)) by {
            assert forall|col: int, p: int| same_elements(
                #[trigger] picked(a1, col, p, a1.len() as int),
                picked(b1, col, p, b1.len() as int),
            ) by {
                let u = picked(a, col, p, n);
                let v = picked(b, col, p, m);
                assert(same_elements(u, v));
                if keyed(x, col, p) {
                    lemma_picked_last(a, n - 1, col, p, n);
                    lemma_picked_last(b, j, col, p, m);
                    let u1 = picked(a, col, p, n - 1);
                    let v1 = picked(b, col, p, j);
                    assert forall|i: int| 0 <= i < u1.len() implies cong(
                        #[trigger] u1[i],
                        v1[i],
                    ) by {
                        assert(u[i] == u1[i] && v[i] == v1[i]);
                    }
                } else {
                    lemma_picked_other(a, n - 1, col, p, n);
                    lemma_picked_other(b, j, col, p, m);
                }
            }
        }
        law_rows_agree(a1, b1, z, gamma);
        lemma_value_remove(a, n - 1, z, gamma);
        lemma_value_remove(b, j, z, gamma);
        let y = b[j];
        let u = picked(a, x.col, x.pow, n);
        assert(cong(u[u.len() - 1], picked(b, x.col, x.pow, m)[u.len() - 1]));
        let c = z[x.col];
        let w = pow(gamma, x.pow as nat);
        lemma_cong_ops(c, c, x.val, y.val);
        lemma_cong_ops(c * x.val, c * y.val, w, w);
        lemma_cong_ops(
            row_value(a1, z, gamma),
            row_value(b1, z, gamma),
            term(x, z, gamma),
            term(y, z, gamma),
        );
    }
}

} // verus!
