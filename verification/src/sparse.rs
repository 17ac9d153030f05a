//! Openings of the sparse matrices of a circuit.
//!
//! The entries of the matrices are committed to once, as vectors of row indices,
//! column indices, coefficients and powers. The value of a matrix at a pair of
//! points is a sum over its entries of products of values read from three tables:
//! one for the rows, one for the columns, one for the powers of the randomizer.
//! A sumcheck proves the sum; logarithmic derivatives prove the reads.
use vstd::prelude::*;
use vstd::arithmetic::power::*;
use vstd::arithmetic::power2::*;
use crate::channel::challenges;
use crate::circuit::{Circuit, CircuitView, Entry, SparseMatrix, matrix_mle};
use crate::field::{Fr, filled, inverse_of, invertible, tables, values};
use crate::gates::{logup_combined, logup_right, product3, product4};
use crate::kzg::{Mkzg, MkzgCommit, MkzgProveParams, batch_open_of, batch_vars, commit_of};
use crate::poly::{MlPoly, at, eq_at, eq_points, min, mle, ones_prefix};
use crate::speaker::{
    Sent, drawn, send_commit, send_fs, send_list, send_points, send_rounds, send_u,
};
use crate::sumcheck::{lemma_log2_ceil, lemma_log2_fits, log2_ceil, log2_ceil_exec, values_at};
use crate::sums::{lemma_pow2_mono, lemma_pow2_step, product_to, sum_to, two_pow};

pub use crate::sparse_prover::sparse_open;
pub use crate::sparse_verifier::sparse_verify;

verus! {

/// The number of matrix values in an opening.
pub const NUM_CLAIMS: usize = 10;

/// The number of groups of entries that are opened together.
pub const NUM_SUPERGROUPS: usize = 1;

/// An entry of a matrix.
pub ghost struct Quad {
    pub row: int,
    pub col: int,
    pub val: int,
    pub pow: int,
}

/// The vectors of a group of entries, and the sizes of the three tables that its
/// indices point into.
pub ghost struct GroupView {
    pub log_row: nat,
    pub log_col: nat,
    pub log_pow: nat,
    pub row: Seq<int>,
    pub col: Seq<int>,
    pub val: Seq<int>,
    pub pow: Seq<int>,
    pub count_row: Seq<int>,
    pub count_col: Seq<int>,
    pub count_pow: Seq<int>,
}

/// One if a condition holds, zero if not.
pub open spec fn one_if(holds: bool) -> int {
    if holds {
        1
    } else {
        0
    }
}

/// How often each index below `n` occurs.
pub open spec fn counts(idx: Seq<int>, n: int) -> Seq<int> {
    Seq::new(n as nat, |i: int| sum_to(idx.len() as int, |k: int| one_if(idx[k] == i)))
}

/// The entries, or a zero entry if there is none.
pub open spec fn not_empty(e: Seq<Quad>) -> Seq<Quad> {
    if e.len() == 0 {
        seq![Quad { row: 0, col: 0, val: 0, pow: 0 }]
    } else {
        e
    }
}

/// The vectors for some entries.
pub open spec fn group_of(e: Seq<Quad>, log_row: nat, log_col: nat, log_pow: nat) -> GroupView {
    let q = not_empty(e);
    let row = q.map_values(|x: Quad| x.row);
    let col = q.map_values(|x: Quad| x.col);
    let pow = q.map_values(|x: Quad| x.pow);
    GroupView {
        log_row,
        log_col,
        log_pow,
        row,
        col,
        val: q.map_values(|x: Quad| x.val),
        pow,
        count_row: counts(row, pow2(log_row) as int),
        count_col: counts(col, pow2(log_col) as int),
        count_pow: counts(pow, pow2(log_pow) as int),
    }
}

/// The indices of entries are within tables of the given sizes.
pub open spec fn quads_in_range(e: Seq<Quad>, rows: int, cols: int, pows: int) -> bool {
    forall|k: int|
        0 <= k < e.len() ==> {
            &&& 0 <= (#[trigger] e[k]).row < rows
            &&& 0 <= e[k].col < cols
            &&& 0 <= e[k].pow < pows
        }
}

/// The indices of a sequence are below a bound.
pub open spec fn below(v: Seq<int>, n: int) -> bool {
    forall|k: int| 0 <= k < v.len() ==> 0 <= #[trigger] v[k] < n
}

/// The vectors of a group fit together and the tables fit in memory.
pub open spec fn group_ok(g: GroupView) -> bool {
    &&& g.row.len() > 0
    &&& g.row.len() < usize::MAX
    &&& g.col.len() == g.row.len()
    &&& g.val.len() == g.row.len()
    &&& g.pow.len() == g.row.len()
    &&& g.log_row >= 1
    &&& g.log_col >= 1
    &&& g.log_pow >= 1
    &&& pow2(g.log_row) < usize::MAX
    &&& pow2(g.log_col) < usize::MAX
    &&& pow2(g.log_pow) < usize::MAX
    &&& pow2(log2_ceil(g.row.len() as int)) <= usize::MAX
    &&& below(g.row, pow2(g.log_row) as int)
    &&& below(g.col, pow2(g.log_col) as int)
    &&& below(g.pow, pow2(g.log_pow) as int)
    &&& g.count_row.len() == pow2(g.log_row)
    &&& g.count_col.len() == pow2(g.log_col)
    &&& g.count_pow.len() == pow2(g.log_pow)
}

/// The entries of a group.
pub struct EntryGroup<'a> {
    pub log_row: usize,
    pub log_col: usize,
    pub log_pow: usize,
    pub row: &'a MlPoly,
    pub col: &'a MlPoly,
    pub val: &'a MlPoly,
    pub pow: &'a MlPoly,
    pub count_row: &'a MlPoly,
    pub count_col: &'a MlPoly,
    pub count_pow: &'a MlPoly,
    pub row_idx: &'a Vec<usize>,
    pub col_idx: &'a Vec<usize>,
    pub pow_idx: &'a Vec<usize>,
}

/// Indices as integers.
pub open spec fn indices(v: Seq<usize>) -> Seq<int> {
    v.map_values(|x: usize| x as int)
}

impl<'a> View for EntryGroup<'a> {
    type V = GroupView;

    open spec fn view(&self) -> GroupView {
        GroupView {
            log_row: self.log_row as nat,
            log_col: self.log_col as nat,
            log_pow: self.log_pow as nat,
            row: self.row@,
            col: self.col@,
            val: self.val@,
            pow: self.pow@,
            count_row: self.count_row@,
            count_col: self.count_col@,
            count_pow: self.count_pow@,
        }
    }
}

impl<'a> EntryGroup<'a> {
    /// The index vectors hold the indices.
    pub open spec fn indexed(&self) -> bool {
        &&& indices(self.row_idx@) == self.row@
        &&& indices(self.col_idx@) == self.col@
        &&& indices(self.pow_idx@) == self.pow@
    }
}

/// The entries of the suffix columns of all the matrices.
#[derive(Clone)]
pub struct SparseSupergroup {
    pub len: usize,
    pub log_row: usize,
    pub log_col: usize,
    pub log_pow: usize,
    pub row: MlPoly,
    pub col: MlPoly,
    pub val: MlPoly,
    pub pow: MlPoly,
    pub count_row: MlPoly,
    pub count_col: MlPoly,
    pub count_pow: MlPoly,
    pub row_idx: Vec<usize>,
    pub col_idx: Vec<usize>,
    pub pow_idx: Vec<usize>,
    /// The number of entries of each matrix.
    pub matrix_lens: Vec<usize>,
}

impl View for SparseSupergroup {
    type V = GroupView;

    open spec fn view(&self) -> GroupView {
        GroupView {
            log_row: self.log_row as nat,
            log_col: self.log_col as nat,
            log_pow: self.log_pow as nat,
            row: self.row@,
            col: self.col@,
            val: self.val@,
            pow: self.pow@,
            count_row: self.count_row@,
            count_col: self.count_col@,
            count_pow: self.count_pow@,
        }
    }
}

impl SparseSupergroup {
    /// The index vectors hold the indices.
    pub open spec fn indexed(&self) -> bool {
        &&& indices(self.row_idx@) == self.row@
        &&& indices(self.col_idx@) == self.col@
        &&& indices(self.pow_idx@) == self.pow@
    }

    /// The entries.
    pub fn entries(&self) -> (out: EntryGroup<'_>)
        ensures
            out@ == self@,
            out.indexed() == self.indexed(),
    {
        EntryGroup {
            log_row: self.log_row,
            log_col: self.log_col,
            log_pow: self.log_pow,
            row: &self.row,
            col: &self.col,
            val: &self.val,
            pow: &self.pow,
            count_row: &self.count_row,
            count_col: &self.count_col,
            count_pow: &self.count_pow,
            row_idx: &self.row_idx,
            col_idx: &self.col_idx,
            pow_idx: &self.pow_idx,
        }
    }
}

/// The entries of the prefix columns of the second matrix.
#[derive(Clone)]
pub struct BPreGroup {
    pub len: usize,
    pub log_row: usize,
    pub log_col: usize,
    pub log_pow: usize,
    pub row: MlPoly,
    pub col: MlPoly,
    pub val: MlPoly,
    pub pow: MlPoly,
    pub count_row: MlPoly,
    pub count_col: MlPoly,
    pub count_pow: MlPoly,
    pub row_idx: Vec<usize>,
    pub col_idx: Vec<usize>,
    pub pow_idx: Vec<usize>,
}

impl View for BPreGroup {
    type V = GroupView;

    open spec fn view(&self) -> GroupView {
        GroupView {
            log_row: self.log_row as nat,
            log_col: self.log_col as nat,
            log_pow: self.log_pow as nat,
            row: self.row@,
            col: self.col@,
            val: self.val@,
            pow: self.pow@,
            count_row: self.count_row@,
            count_col: self.count_col@,
            count_pow: self.count_pow@,
        }
    }
}

impl BPreGroup {
    /// The index vectors hold the indices.
    pub open spec fn indexed(&self) -> bool {
        &&& indices(self.row_idx@) == self.row@
        &&& indices(self.col_idx@) == self.col@
        &&& indices(self.pow_idx@) == self.pow@
    }

    /// The entries.
    pub fn entries(&self) -> (out: EntryGroup<'_>)
        ensures
            out@ == self@,
            out.indexed() == self.indexed(),
    {
        EntryGroup {
            log_row: self.log_row,
            log_col: self.log_col,
            log_pow: self.log_pow,
            row: &self.row,
            col: &self.col,
            val: &self.val,
            pow: &self.pow,
            count_row: &self.count_row,
            count_col: &self.count_col,
            count_pow: &self.count_pow,
            row_idx: &self.row_idx,
            col_idx: &self.col_idx,
            pow_idx: &self.pow_idx,
        }
    }
}

/// All the entries that are opened.
#[derive(Clone)]
pub struct SparsePolys {
    pub supergroups: Vec<SparseSupergroup>,
    pub b_pre: BPreGroup,
}

/// The exponents of the commitments to the vectors of a group.
pub ghost struct GroupCommits {
    pub log_row: nat,
    pub log_col: nat,
    pub log_pow: nat,
    pub row: Seq<int>,
    pub col: Seq<int>,
    pub val: Seq<int>,
    pub pow: Seq<int>,
    pub count_row: Seq<int>,
    pub count_col: Seq<int>,
    pub count_pow: Seq<int>,
}

/// The commitments to the vectors of a group.
pub open spec fn group_commits(srs: Seq<int>, g: GroupView) -> GroupCommits {
    GroupCommits {
        log_row: g.log_row,
        log_col: g.log_col,
        log_pow: g.log_pow,
        row: commit_of(srs, g.row),
        col: commit_of(srs, g.col),
        val: commit_of(srs, g.val),
        pow: commit_of(srs, g.pow),
        count_row: commit_of(srs, g.count_row),
        count_col: commit_of(srs, g.count_col),
        count_pow: commit_of(srs, g.count_pow),
    }
}

/// The commitments to the vectors of a group.
pub struct EntryCommits<'a> {
    pub log_row: usize,
    pub log_col: usize,
    pub log_pow: usize,
    pub row: &'a MkzgCommit,
    pub col: &'a MkzgCommit,
    pub val: &'a MkzgCommit,
    pub pow: &'a MkzgCommit,
    pub count_row: &'a MkzgCommit,
    pub count_col: &'a MkzgCommit,
    pub count_pow: &'a MkzgCommit,
}

impl<'a> View for EntryCommits<'a> {
    type V = GroupCommits;

    open spec fn view(&self) -> GroupCommits {
        GroupCommits {
            log_row: self.log_row as nat,
            log_col: self.log_col as nat,
            log_pow: self.log_pow as nat,
            row: self.row@,
            col: self.col@,
            val: self.val@,
            pow: self.pow@,
            count_row: self.count_row@,
            count_col: self.count_col@,
            count_pow: self.count_pow@,
        }
    }
}

/// The commitments to the entries of the suffix columns.
#[derive(Clone)]
pub struct SparseSupergroupCommit {
    pub len: usize,
    pub log_row: usize,
    pub log_col: usize,
    pub log_pow: usize,
    pub row: MkzgCommit,
    pub col: MkzgCommit,
    pub val: MkzgCommit,
    pub pow: MkzgCommit,
    pub count_row: MkzgCommit,
    pub count_col: MkzgCommit,
    pub count_pow: MkzgCommit,
    pub matrix_lens: Vec<usize>,
}

impl View for SparseSupergroupCommit {
    type V = GroupCommits;

    open spec fn view(&self) -> GroupCommits {
        GroupCommits {
            log_row: self.log_row as nat,
            log_col: self.log_col as nat,
            log_pow: self.log_pow as nat,
            row: self.row@,
            col: self.col@,
            val: self.val@,
            pow: self.pow@,
            count_row: self.count_row@,
            count_col: self.count_col@,
            count_pow: self.count_pow@,
        }
    }
}

impl SparseSupergroupCommit {
    /// The commitments.
    pub fn entries(&self) -> (out: EntryCommits<'_>)
        ensures
            out@ == self@,
    {
        EntryCommits {
            log_row: self.log_row,
            log_col: self.log_col,
            log_pow: self.log_pow,
            row: &self.row,
            col: &self.col,
            val: &self.val,
            pow: &self.pow,
            count_row: &self.count_row,
            count_col: &self.count_col,
            count_pow: &self.count_pow,
        }
    }
}

/// The commitments to the entries of the prefix columns of the second matrix.
#[derive(Clone)]
pub struct BPreCommit {
    pub len: usize,
    pub log_row: usize,
    pub log_col: usize,
    pub log_pow: usize,
    pub row: MkzgCommit,
    pub col: MkzgCommit,
    pub val: MkzgCommit,
    pub pow: MkzgCommit,
    pub count_row: MkzgCommit,
    pub count_col: MkzgCommit,
    pub count_pow: MkzgCommit,
}

impl View for BPreCommit {
    type V = GroupCommits;

    open spec fn view(&self) -> GroupCommits {
        GroupCommits {
            log_row: self.log_row as nat,
            log_col: self.log_col as nat,
            log_pow: self.log_pow as nat,
            row: self.row@,
            col: self.col@,
            val: self.val@,
            pow: self.pow@,
            count_row: self.count_row@,
            count_col: self.count_col@,
            count_pow: self.count_pow@,
        }
    }
}

impl BPreCommit {
    /// The commitments.
    pub fn entries(&self) -> (out: EntryCommits<'_>)
        ensures
            out@ == self@,
    {
        EntryCommits {
            log_row: self.log_row,
            log_col: self.log_col,
            log_pow: self.log_pow,
            row: &self.row,
            col: &self.col,
            val: &self.val,
            pow: &self.pow,
            count_row: &self.count_row,
            count_col: &self.count_col,
            count_pow: &self.count_pow,
        }
    }
}

/// The commitments to all the entries that are opened.
#[derive(Clone)]
pub struct SparseCommits {
    pub supergroups: Vec<SparseSupergroupCommit>,
    pub b_pre: BPreCommit,
}

/// The values of the five matrices, on the suffix and on the prefix columns.
#[derive(Clone, Copy)]
pub struct SparseEvals {
    pub a_suf: Fr,
    pub b_suf: Fr,
    pub c_suf: Fr,
    pub d_suf: Fr,
    pub e_suf: Fr,
    pub a_pre: Fr,
    pub b_pre: Fr,
    pub c_pre: Fr,
    pub d_pre: Fr,
    pub e_pre: Fr,
}

impl View for SparseEvals {
    type V = Seq<int>;

    open spec fn view(&self) -> Seq<int> {
        seq![
            self.a_suf@,
            self.b_suf@,
            self.c_suf@,
            self.d_suf@,
            self.e_suf@,
            self.a_pre@,
            self.b_pre@,
            self.c_pre@,
            self.d_pre@,
            self.e_pre@,
        ]
    }
}

impl SparseEvals {
    /// The values in order.
    pub fn as_array(&self) -> (out: Vec<Fr>)
        ensures
            values(out@) == self@,
            out.len() == NUM_CLAIMS,
    {
        let mut out: Vec<Fr> = Vec::new();
        out.push(self.a_suf);
        out.push(self.b_suf);
        out.push(self.c_suf);
        out.push(self.d_suf);
        out.push(self.e_suf);
        out.push(self.a_pre);
        out.push(self.b_pre);
        out.push(self.c_pre);
        out.push(self.d_pre);
        out.push(self.e_pre);
        assert(values(out@) =~= self@);
        out
    }

    /// The values from their order.
    pub fn from_array(arr: &Vec<Fr>) -> (out: SparseEvals)
        requires
            arr.len() == NUM_CLAIMS,
        ensures
            out@ == values(arr@),
    {
        let out = SparseEvals {
            a_suf: arr[0],
            b_suf: arr[1],
            c_suf: arr[2],
            d_suf: arr[3],
            e_suf: arr[4],
            a_pre: arr[5],
            b_pre: arr[6],
            c_pre: arr[7],
            d_pre: arr[8],
            e_pre: arr[9],
        };
        assert(out@ =~= values(arr@));
        out
    }
}

/// The value at a point of the polynomial whose value at vertex `i` is `i`.
pub open spec fn identity_at(p: Seq<int>) -> int {
    sum_to(p.len() as int, |i: int| p[i] * pow2(i as nat))
}

/// The value at a point of the polynomial whose value at vertex `i` is the power
/// `i` of `gamma`.
pub open spec fn gamma_at(p: Seq<int>, gamma: int) -> int {
    product_to(p.len() as int, |i: int| 1 + p[i] * (pow(gamma, pow2(i as nat)) - 1))
}

/// A point with zeros up to the given length; a longer point is cut.
pub open spec fn pad(p: Seq<int>, n: int) -> Seq<int> {
    crate::kzg::resized(p, n)
}

/// The values of `eq_at` over the cube.
pub open spec fn eq_table(p: Seq<int>) -> Seq<int> {
    Seq::new(pow2(p.len()), |i: int| eq_at(p, i))
}

/// The table for the rows of the constraint matrices, followed by that for the
/// rows of the lookup matrices.
pub open spec fn row_table(abc: Seq<int>, de: Seq<int>, log: nat) -> Seq<int> {
    eq_table(pad(abc, log as int)) + eq_table(pad(de, log as int))
}

/// The value at a point of the polynomial with the values of `row_table`.
pub open spec fn row_table_at(abc: Seq<int>, de: Seq<int>, p: Seq<int>) -> int {
    let log = p.len() - 1;
    let lower = p.take(log);
    eq_points(pad(abc, log), lower, log) * (1 - p[log]) + eq_points(pad(de, log), lower, log)
        * p[log]
}

/// The powers of `gamma`.
pub open spec fn gamma_table(gamma: int, log: nat) -> Seq<int> {
    Seq::new(pow2(log), |i: int| pow(gamma, i as nat))
}

/// The sums of the first lengths.
pub open spec fn cumulated(lens: Seq<int>, n: int) -> int
    decreases n,
{
    if n <= 0 {
        0
    } else {
        cumulated(lens, n - 1) + lens[n - 1]
    }
}

/// The value at a point of the polynomial that is the power `i` of `r` on the
/// slice `i` of the vertices, for the first `n` slices.
pub open spec fn weight_at(p: Seq<int>, lens: Seq<int>, r: int, n: int) -> int {
    let top = pow2(p.len()) as int;
    sum_to(
        n,
        |i: int|
            pow(r, i as nat) * (ones_prefix(p, min(cumulated(lens, i + 1), top)) - ones_prefix(
                p,
                min(cumulated(lens, i), top),
            )),
    )
}

/// The power of `r` that the slice of each vertex gets, for the first `n` slices.
pub open spec fn slice_weights(lens: Seq<int>, r: int, n: int) -> Seq<int>
    decreases n,
{
    if n <= 0 {
        Seq::empty()
    } else {
        slice_weights(lens, r, n - 1) + Seq::new(
            lens[n - 1] as nat,
            |j: int| pow(r, (n - 1) as nat),
        )
    }
}

/// The weights of the entries of a group: those of their slices, zero past them.
pub open spec fn entry_weights(lens: Seq<int>, r: int, len: int) -> Seq<int> {
    crate::kzg::resized(slice_weights(lens, r, lens.len() as int), len)
}

/// What the indices read from a table.
pub open spec fn reads(idx: Seq<int>, table: Seq<int>) -> Seq<int> {
    idx.map_values(|i: int| table[i])
}

/// The products of two sequences, entry by entry.
pub open spec fn pointwise(a: Seq<int>, b: Seq<int>) -> Seq<int> {
    Seq::new(a.len(), |i: int| a[i] * b[i])
}

/// The first sequence plus a multiple of the second.
pub open spec fn affine(a: Seq<int>, b: Seq<int>, beta: int) -> Seq<int> {
    Seq::new(a.len(), |i: int| a[i] + beta * b[i])
}

/// A sequence with a constant added.
pub open spec fn shifted(a: Seq<int>, alpha: int) -> Seq<int> {
    a.map_values(|x: int| x + alpha)
}

/// The inverses of a sequence with a constant added.
pub open spec fn shifted_inverses(a: Seq<int>, alpha: int) -> Seq<int> {
    a.map_values(|x: int| inverse_of(x + alpha))
}

/// The entries of a sequence with a constant added are invertible.
pub open spec fn all_invertible(a: Seq<int>, alpha: int) -> bool {
    forall|i: int| 0 <= i < a.len() ==> invertible(#[trigger] a[i] + alpha)
}

/// The sum of a sequence.
pub open spec fn total(a: Seq<int>) -> int {
    sum_to(a.len() as int, |i: int| a[i])
}

/// The indices of a table, each plus a multiple of its entry.
pub open spec fn fingerprints(table: Seq<int>, beta: int) -> Seq<int> {
    Seq::new(table.len(), |i: int| i + beta * table[i])
}

/// Polynomials and the points at which they will be opened.
pub ghost struct Acc {
    pub polys: Seq<Seq<int>>,
    pub points: Seq<Seq<int>>,
}

/// One more polynomial and point.
pub open spec fn acc_push(a: Acc, f: Seq<int>, p: Seq<int>) -> Acc {
    Acc { polys: a.polys.push(f), points: a.points.push(p) }
}

/// What the prover sends for the right-hand side of one table, with the inverses
/// already committed to.
#[verifier::opaque]
pub open spec fn prove_right(
    tab: Seq<int>,
    inv: Seq<int>,
    count: Seq<int>,
    alpha: int,
    s: Sent,
) -> (Sent, Seq<int>) {
    let len = tab.len() as int;
    let nv = log2_ceil(len) as int;
    let s1 = send_u(s, len);
    let eq = eq_table(s1.ch.take(nv)).take(len);
    let s2 = drawn(s1, nv);
    let r = s2.ch[0];
    let s3 = drawn(s2, 1);
    let point = s3.ch.take(nv);
    let tabs = seq![shifted(tab, alpha), inv, count, eq];
    let s4 = send_rounds(s3, logup_right(), seq![r], tabs, len, 3, nv);
    (send_fs(s4, values_at(tabs, point).take(3)), point)
}

/// What the prover sends for the left-hand sides of the three tables together.
#[verifier::opaque]
pub open spec fn prove_left(
    er: Seq<int>,
    ir: Seq<int>,
    ec: Seq<int>,
    ic: Seq<int>,
    eg: Seq<int>,
    ig: Seq<int>,
    alpha: int,
    rho: int,
    s: Sent,
) -> (Sent, Seq<int>) {
    let len = er.len() as int;
    let nv = log2_ceil(len) as int;
    let s1 = send_u(s, len);
    let eq = eq_table(s1.ch.take(nv)).take(len);
    let s2 = drawn(s1, nv);
    let r = s2.ch[0];
    let s3 = drawn(s2, 1);
    let point = s3.ch.take(nv);
    let tabs = seq![
        shifted(er, alpha),
        ir,
        shifted(ec, alpha),
        ic,
        shifted(eg, alpha),
        ig,
        eq,
    ];
    let s4 = send_rounds(s3, logup_combined(), seq![rho, rho * rho, r], tabs, len, 3, nv);
    (send_fs(s4, values_at(tabs, point).take(6)), point)
}

/// What the prover sends to show that the reads of a group from its three tables
/// are right.
#[verifier::opaque]
pub open spec fn prove_memory(
    srs: Seq<int>,
    g: GroupView,
    tr: Seq<int>,
    tc: Seq<int>,
    tg: Seq<int>,
    s: Sent,
    acc: Acc,
) -> (Sent, Acc) {
    let e_row = reads(g.row, tr);
    let e_col = reads(g.col, tc);
    let e_pow = reads(g.pow, tg);
    let br = s.ch[0];
    let bc = s.ch[1];
    let bp = s.ch[2];
    let alpha = s.ch[3];
    let rho = s.ch[4];
    let s0 = drawn(s, 5);
    let er = affine(g.row, e_row, br);
    let ec = affine(g.col, e_col, bc);
    let eg = affine(g.pow, e_pow, bp);
    let ir = shifted_inverses(er, alpha);
    let ic = shifted_inverses(ec, alpha);
    let ig = shifted_inverses(eg, alpha);
    let s1 = send_commit(s0, srs, ir);
    let s2 = send_commit(s1, srs, ic);
    let s3 = send_commit(s2, srs, ig);
    let s4 = send_fs(s3, seq![total(ir), total(ic), total(ig)]);
    let (s5, pl) = prove_left(er, ir, ec, ic, eg, ig, alpha, rho, s4);
    let s6 = send_fs(
        s5,
        seq![
            mle(g.row, pl),
            mle(g.col, pl),
            mle(g.pow, pl),
            mle(e_row, pl),
            mle(e_col, pl),
            mle(e_pow, pl),
        ],
    );
    let a1 = acc_push(acc_push(acc_push(acc, g.row, pl), g.col, pl), g.pow, pl);
    let a2 = acc_push(acc_push(acc_push(a1, e_row, pl), e_col, pl), e_pow, pl);
    let a3 = acc_push(acc_push(acc_push(a2, ir, pl), ic, pl), ig, pl);
    let fr = fingerprints(tr, br);
    let fc = fingerprints(tc, bc);
    let fg = fingerprints(tg, bp);
    let vr = shifted_inverses(fr, alpha);
    let vc = shifted_inverses(fc, alpha);
    let vg = shifted_inverses(fg, alpha);
    let s7 = send_commit(s6, srs, vr);
    let s8 = send_commit(s7, srs, vc);
    let s9 = send_commit(s8, srs, vg);
    let (s10, pr) = prove_right(fr, vr, g.count_row, alpha, s9);
    let (s11, pc) = prove_right(fc, vc, g.count_col, alpha, s10);
    let (s12, pg) = prove_right(fg, vg, g.count_pow, alpha, s11);
    let a4 = acc_push(acc_push(a3, vr, pr), g.count_row, pr);
    let a5 = acc_push(acc_push(a4, vc, pc), g.count_col, pc);
    let a6 = acc_push(acc_push(a5, vg, pg), g.count_pow, pg);
    (s12, a6)
}

/// The number of challenges that showing the reads of a group draws.
pub open spec fn memory_draws(g: GroupView) -> int {
    9 + 2 * log2_ceil(g.row.len() as int) as int + 2 * g.log_row as int + 2 * g.log_col as int + 2
        * g.log_pow as int
}

/// The inverses that showing the reads of a group needs exist.
pub open spec fn memory_ready(
    g: GroupView,
    tr: Seq<int>,
    tc: Seq<int>,
    tg: Seq<int>,
    ch: Seq<int>,
) -> bool {
    &&& ch.len() >= memory_draws(g)
    &&& all_invertible(affine(g.row, reads(g.row, tr), ch[0]), ch[3])
    &&& all_invertible(affine(g.col, reads(g.col, tc), ch[1]), ch[3])
    &&& all_invertible(affine(g.pow, reads(g.pow, tg), ch[2]), ch[3])
    &&& all_invertible(fingerprints(tr, ch[0]), ch[3])
    &&& all_invertible(fingerprints(tc, ch[1]), ch[3])
    &&& all_invertible(fingerprints(tg, ch[2]), ch[3])
}

/// What the prover sends for the values of the matrices on the suffix columns.
#[verifier::opaque]
pub open spec fn prove_suffix(
    srs: Seq<int>,
    g: GroupView,
    lens: Seq<int>,
    abc: Seq<int>,
    de: Seq<int>,
    col_point: Seq<int>,
    gamma: int,
    s: Sent,
    acc: Acc,
) -> (Sent, Acc) {
    let len = g.row.len() as int;
    let nv = log2_ceil(len) as int;
    let tr = row_table(abc, de, (g.log_row - 1) as nat);
    let tc = eq_table(col_point);
    let tg = gamma_table(gamma, g.log_pow);
    let e_row = reads(g.row, tr);
    let e_col = reads(g.col, tc);
    let e_pow = reads(g.pow, tg);
    let s1 = send_commit(s, srs, e_row);
    let s2 = send_commit(s1, srs, e_col);
    let s3 = send_commit(s2, srs, e_pow);
    let r = s3.ch[0];
    let s4 = drawn(s3, 1);
    let w = entry_weights(lens, r, len);
    let v = pointwise(g.val, w);
    let s5 = send_u(send_commit(s4, srs, v), len);
    let p1 = s5.ch.take(nv);
    let t1 = seq![e_row, e_col, e_pow, v];
    let s6 = send_fs(
        send_rounds(s5, product4(), Seq::empty(), t1, len, 4, nv),
        values_at(t1, p1),
    );
    let s7 = send_u(s6, len);
    let p2 = s7.ch.take(nv);
    let t2 = seq![eq_table(p1).take(len), w, g.val];
    let s8 = send_fs(
        send_rounds(s7, product3(), Seq::empty(), t2, len, 3, nv),
        values_at(t2, p2),
    );
    let a1 = acc_push(acc_push(acc_push(acc, e_row, p1), e_col, p1), e_pow, p1);
    let a2 = acc_push(acc_push(a1, v, p1), g.val, p2);
    prove_memory(srs, g, tr, tc, tg, s8, a2)
}

/// What the prover sends for the value of the second matrix on the prefix columns.
#[verifier::opaque]
pub open spec fn prove_prefix(
    srs: Seq<int>,
    g: GroupView,
    row_point: Seq<int>,
    col_point: Seq<int>,
    gamma: int,
    s: Sent,
    acc: Acc,
) -> (Sent, Acc) {
    let len = g.row.len() as int;
    let nv = log2_ceil(len) as int;
    let tr = eq_table(row_point);
    let tc = eq_table(col_point);
    let tg = gamma_table(gamma, g.log_pow);
    let e_row = reads(g.row, tr);
    let e_col = reads(g.col, tc);
    let e_pow = reads(g.pow, tg);
    let s1 = send_commit(s, srs, e_row);
    let s2 = send_commit(s1, srs, e_col);
    let s3 = send_u(send_commit(s2, srs, e_pow), len);
    let p1 = s3.ch.take(nv);
    let t1 = seq![e_row, e_col, e_pow, g.val];
    let s4 = send_fs(
        send_rounds(s3, product4(), Seq::empty(), t1, len, 4, nv),
        values_at(t1, p1),
    );
    let a1 = acc_push(acc_push(acc_push(acc, e_row, p1), e_col, p1), e_pow, p1);
    let a2 = acc_push(a1, g.val, p1);
    prove_memory(srs, g, tr, tc, tg, s4, a2)
}

/// The ten values of the matrices.
#[verifier::opaque]
pub open spec fn sparse_values(
    c: CircuitView,
    abc: Seq<int>,
    de: Seq<int>,
    suf: Seq<int>,
    pre: Seq<int>,
    gamma: int,
) -> Seq<int> {
    let n = c.a.len() as int;
    let l = c.d.len() as int;
    let w = c.weight_len;
    let all = usize::MAX as int;
    let ra = eq_table(abc);
    let rd = eq_table(de);
    let cs = eq_table(suf);
    let cp = eq_table(pre);
    seq![
        matrix_mle(c.a, n, ra, cs, w, all, gamma),
        matrix_mle(c.b, c.b.len() as int, ra, cs, w, all, gamma),
        matrix_mle(c.c, c.c.len() as int, ra, cs, w, all, gamma),
        matrix_mle(c.d, l, rd, cs, w, all, gamma),
        matrix_mle(c.e, c.e.len() as int, rd, cs, w, all, gamma),
        matrix_mle(c.a, n, ra, cp, 0, w, gamma),
        matrix_mle(c.b, c.b.len() as int, ra, cp, 0, w, gamma),
        matrix_mle(c.c, c.c.len() as int, ra, cp, 0, w, gamma),
        matrix_mle(c.d, l, rd, cp, 0, w, gamma),
        matrix_mle(c.e, c.e.len() as int, rd, cp, 0, w, gamma),
    ]
}

/// What the prover sends to open the matrices at the given points.
pub open spec fn sparse_open_of(
    srs: Seq<int>,
    c: CircuitView,
    g: GroupView,
    lens: Seq<int>,
    b: GroupView,
    abc: Seq<int>,
    de: Seq<int>,
    suf: Seq<int>,
    pre: Seq<int>,
    gamma: int,
    s: Sent,
) -> Sent {
    let s1 = send_fs(s, sparse_values(c, abc, de, suf, pre, gamma));
    let none = Acc { polys: Seq::empty(), points: Seq::empty() };
    let (s2, a1) = prove_suffix(srs, g, lens, abc, de, suf, gamma, s1, none);
    let (s3, a2) = prove_prefix(srs, b, abc, pre, gamma, s2, a1);
    send_batch(srs, a2, s3)
}

/// What the prover sends for the joint opening of polynomials.
pub open spec fn send_batch(srs: Seq<int>, acc: Acc, s: Sent) -> Sent {
    let (proof, sc) = batch_open_of(srs, acc.polys, acc.points, s.ch);
    let n = 1 + batch_vars(acc.polys, acc.points, acc.polys.len() as int);
    send_list(send_points(drawn(s, n), proof), sc)
}

/// The entries of the first `n` places of a row whose columns are from `lo` to
/// `hi`.
pub open spec fn row_quads(row: Seq<Entry>, i: int, lo: int, hi: int, n: int) -> Seq<Quad>
    decreases n,
{
    if n <= 0 {
        Seq::empty()
    } else {
        let before = row_quads(row, i, lo, hi, n - 1);
        let e = row[n - 1];
        if lo <= e.col < hi {
            before.push(Quad { row: i, col: e.col - lo, val: e.val, pow: e.pow })
        } else {
            before
        }
    }
}

/// The entries of the first `n` rows whose columns are from `lo` to `hi`.
pub open spec fn quads(rows: Seq<Seq<Entry>>, lo: int, hi: int, n: int) -> Seq<Quad>
    decreases n,
{
    if n <= 0 {
        Seq::empty()
    } else {
        quads(rows, lo, hi, n - 1) + row_quads(
            rows[n - 1],
            n - 1,
            lo,
            hi,
            rows[n - 1].len() as int,
        )
    }
}

/// The greatest power in the first `n` places of a row.
pub open spec fn row_max_pow(row: Seq<Entry>, n: int) -> int
    decreases n,
{
    if n <= 0 {
        0
    } else if row_max_pow(row, n - 1) >= row[n - 1].pow {
        row_max_pow(row, n - 1)
    } else {
        row[n - 1].pow
    }
}

/// The greatest power in the first `n` rows.
pub open spec fn max_pow(rows: Seq<Seq<Entry>>, n: int) -> int
    decreases n,
{
    if n <= 0 {
        0
    } else {
        let here = row_max_pow(rows[n - 1], rows[n - 1].len() as int);
        if max_pow(rows, n - 1) >= here {
            max_pow(rows, n - 1)
        } else {
            here
        }
    }
}

/// The greater of two numbers.
pub open spec fn max2(a: int, b: int) -> int {
    if a >= b {
        a
    } else {
        b
    }
}

/// The greatest power in a circuit.
pub open spec fn circuit_max_pow(c: CircuitView) -> int {
    max2(
        max2(
            max2(max_pow(c.a, c.a.len() as int), max_pow(c.b, c.b.len() as int)),
            max2(max_pow(c.c, c.c.len() as int), max_pow(c.d, c.d.len() as int)),
        ),
        max_pow(c.e, c.e.len() as int),
    )
}

/// Entries with their rows moved.
pub open spec fn moved(q: Seq<Quad>, by: int) -> Seq<Quad> {
    q.map_values(|x: Quad| Quad { row: x.row + by, ..x })
}

/// The entries of a matrix on the suffix columns.
pub open spec fn suffix_quads(c: CircuitView, rows: Seq<Seq<Entry>>) -> Seq<Quad> {
    quads(rows, c.weight_len, usize::MAX as int, rows.len() as int)
}

/// The number of row variables of a circuit.
pub open spec fn row_base_log(c: CircuitView) -> nat {
    max2(log2_ceil(c.a.len() as int) as int, log2_ceil(c.d.len() as int) as int) as nat
}

/// The number of power variables of a circuit.
pub open spec fn pow_log(c: CircuitView) -> nat {
    log2_ceil(circuit_max_pow(c) + 1)
}

/// The entries of all the matrices on the suffix columns. The rows of the lookup
/// matrices come after those of the constraint matrices.
pub open spec fn all_suffix_quads(c: CircuitView) -> Seq<Quad> {
    let flag = pow2(row_base_log(c)) as int;
    moved(suffix_quads(c, c.a), 0) + moved(suffix_quads(c, c.b), 0) + moved(
        suffix_quads(c, c.c),
        0,
    ) + moved(suffix_quads(c, c.d), flag) + moved(suffix_quads(c, c.e), flag)
}

/// The number of entries of each matrix on the suffix columns.
pub open spec fn suffix_lens(c: CircuitView) -> Seq<int> {
    seq![
        suffix_quads(c, c.a).len() as int,
        suffix_quads(c, c.b).len() as int,
        suffix_quads(c, c.c).len() as int,
        suffix_quads(c, c.d).len() as int,
        suffix_quads(c, c.e).len() as int,
    ]
}

/// The group of the entries of all the matrices on the suffix columns.
#[verifier::opaque]
pub open spec fn suffix_group(c: CircuitView) -> GroupView {
    group_of(
        all_suffix_quads(c),
        row_base_log(c) + 1,
        log2_ceil(c.z_len - c.weight_len),
        pow_log(c),
    )
}

/// The group of the entries of the second matrix on the prefix columns.
#[verifier::opaque]
pub open spec fn prefix_group(c: CircuitView) -> GroupView {
    group_of(
        quads(c.b, 0, c.weight_len, c.b.len() as int),
        log2_ceil(c.a.len() as int),
        log2_ceil(c.weight_len),
        pow_log(c),
    )
}

/// The powers of an entry are not negative.
pub open spec fn pows_ok(rows: Seq<Seq<Entry>>) -> bool {
    forall|i: int, k: int|
        0 <= i < rows.len() && 0 <= k < rows[i].len() ==> 0 <= (#[trigger] rows[i][k]).pow
}

/// The largest size of a table or a list of entries.
pub open spec fn size_limit() -> int {
    (usize::MAX / 16) as int
}

/// The parts of a circuit fit together, and the tables for its openings fit in
/// memory.
pub open spec fn circuit_fits(c: CircuitView, chunk: int) -> bool {
    &&& c.a.len() == c.b.len()
    &&& c.b.len() == c.c.len()
    &&& c.d.len() == c.e.len()
    &&& c.e.len() == c.tp.len()
    &&& 0 <= c.weight_len <= c.z_len <= size_limit()
    &&& c.weights.len() == c.weight_len
    &&& matrix_in(c.a, c.z_len)
    &&& matrix_in(c.b, c.z_len)
    &&& matrix_in(c.c, c.z_len)
    &&& matrix_in(c.d, c.z_len)
    &&& matrix_in(c.e, c.z_len)
    &&& c.a.len() <= size_limit()
    &&& c.d.len() <= size_limit()
    &&& c.table.len() <= size_limit()
    &&& circuit_max_pow(c) < size_limit()
    &&& all_suffix_quads(c).len() <= size_limit()
    &&& quads(c.b, 0, c.weight_len, c.b.len() as int).len() <= size_limit()
    &&& 0 < chunk <= size_limit()
}

/// The columns of all the rows are within a vector of the given length.
pub open spec fn matrix_in(rows: Seq<Seq<Entry>>, len: int) -> bool {
    crate::circuit::matrix_in_range(rows, len) && pows_ok(rows)
}

/// The entries of a row that are collected are within the row's bounds.
proof fn lemma_row_quads(row: Seq<Entry>, i: int, lo: int, hi: int, n: int, cols: int, pows: int)
    requires
        0 <= n <= row.len(),
        lo >= 0,
        forall|k: int| 0 <= k < row.len() ==> 0 <= (#[trigger] row[k]).col < cols,
        forall|k: int| 0 <= k < row.len() ==> 0 <= (#[trigger] row[k]).pow < pows,
    ensures
        forall|k: int|
            0 <= k < row_quads(row, i, lo, hi, n).len() ==> {
                let q = #[trigger] row_quads(row, i, lo, hi, n)[k];
                q.row == i && 0 <= q.col && q.col + lo < cols && q.col + lo < hi && 0 <= q.pow
                    < pows
            },
        row_quads(row, i, lo, hi, n).len() <= n,
    decreases n,
{
    if n > 0 {
        lemma_row_quads(row, i, lo, hi, n - 1, cols, pows);
    }
}

/// The entries of a matrix that are collected are within the matrix's bounds.
pub proof fn lemma_quads(rows: Seq<Seq<Entry>>, lo: int, hi: int, n: int, cols: int, pows: int)
    requires
        0 <= n <= rows.len(),
        lo >= 0,
        matrix_in(rows, cols),
        max_pow(rows, n) < pows,
    ensures
        forall|k: int|
            0 <= k < quads(rows, lo, hi, n).len() ==> {
                let q = #[trigger] quads(rows, lo, hi, n)[k];
                0 <= q.row < n && 0 <= q.col && q.col + lo < cols && q.col + lo < hi && 0 <= q.pow
                    < pows
            },
    decreases n,
{
    if n > 0 {
        lemma_quads(rows, lo, hi, n - 1, cols, pows);
        let row = rows[n - 1];
        assert(crate::circuit::row_in_range(rows[n - 1], cols));
        assert forall|k: int| 0 <= k < row.len() implies 0 <= (#[trigger] row[k]).pow < pows by {
            lemma_row_max_pow(row, row.len() as int, k);
            assert(0 <= rows[n - 1][k].pow);
        }
        lemma_row_quads(row, n - 1, lo, hi, row.len() as int, cols, pows);
        let a = quads(rows, lo, hi, n - 1);
        let b = row_quads(row, n - 1, lo, hi, row.len() as int);
        assert forall|k: int| 0 <= k < quads(rows, lo, hi, n).len() implies {
            let q = #[trigger] quads(rows, lo, hi, n)[k];
            0 <= q.row < n && 0 <= q.col && q.col + lo < cols && q.col + lo < hi && 0 <= q.pow
                < pows
        } by {
            if k < a.len() {
                assert(quads(rows, lo, hi, n)[k] == a[k]);
            } else {
                assert(quads(rows, lo, hi, n)[k] == b[k - a.len()]);
            }
        }
    }
}

pub proof fn lemma_row_max_pow(row: Seq<Entry>, n: int, k: int)
    requires
        0 <= k < n <= row.len(),
    ensures
        row[k].pow <= row_max_pow(row, n),
    decreases n,
{
    if k < n - 1 {
        lemma_row_max_pow(row, n - 1, k);
    }
}

/// The size of a table that a length needs stays below the limit.
pub proof fn lemma_table_size(n: int)
    requires
        n <= size_limit(),
    ensures
        pow2(log2_ceil(n)) <= 2 * size_limit(),
        pow2(log2_ceil(n)) < usize::MAX,
        log2_ceil(n) >= 1,
        log2_ceil(n) < 64,
{
    lemma_log2_ceil(n);
    lemma_pow2_step(0);
    if n > 2 {
        lemma_pow2_step((log2_ceil(n) - 1) as nat);
    }
    lemma_log2_fits(n);
}

/// The group of the suffix entries of a circuit fits together.
pub proof fn lemma_suffix_group(c: CircuitView, chunk: int)
    requires
        circuit_fits(c, chunk),
    ensures
        group_ok(suffix_group(c)),
        quads_in_range(
            all_suffix_quads(c),
            pow2((row_base_log(c) + 1) as nat) as int,
            pow2(log2_ceil(c.z_len - c.weight_len)) as int,
            pow2(pow_log(c)) as int,
        ),
        pow2((row_base_log(c) + 1) as nat) <= 4 * size_limit(),
        suffix_group(c).row.len() <= size_limit(),
        suffix_group(c).log_row == row_base_log(c) + 1,
        suffix_group(c).log_col == log2_ceil(c.z_len - c.weight_len),
        suffix_group(c).log_pow == pow_log(c),
{
    reveal(suffix_group);
    let q = all_suffix_quads(c);
    let g = suffix_group(c);
    let base = row_base_log(c);
    let flag = pow2(base) as int;
    let wl = c.weight_len;
    let top = usize::MAX as int;
    let pows = circuit_max_pow(c) + 1;
    lemma_table_size(c.a.len() as int);
    lemma_table_size(c.d.len() as int);
    lemma_table_size(c.z_len - wl);
    lemma_table_size(pows);
    lemma_log2_ceil(c.a.len() as int);
    lemma_log2_ceil(c.d.len() as int);
    lemma_log2_ceil(c.z_len - wl);
    lemma_log2_ceil(pows);
    lemma_pow2_step(base);
    lemma_pow2_mono(log2_ceil(c.a.len() as int), base);
    lemma_pow2_mono(log2_ceil(c.d.len() as int), base);
    lemma_quads(c.a, wl, top, c.a.len() as int, c.z_len, pows);
    lemma_quads(c.b, wl, top, c.b.len() as int, c.z_len, pows);
    lemma_quads(c.c, wl, top, c.c.len() as int, c.z_len, pows);
    lemma_quads(c.d, wl, top, c.d.len() as int, c.z_len, pows);
    lemma_quads(c.e, wl, top, c.e.len() as int, c.z_len, pows);
    assert(quads_in_range(
        q,
        2 * flag,
        pow2(log2_ceil(c.z_len - wl)) as int,
        pow2(pow_log(c)) as int,
    ));
    lemma_group_ok(q, (base + 1) as nat, log2_ceil(c.z_len - wl), pow_log(c));
}

/// The group of the prefix entries of a circuit fits together.
pub proof fn lemma_prefix_group(c: CircuitView, chunk: int)
    requires
        circuit_fits(c, chunk),
    ensures
        group_ok(prefix_group(c)),
        quads_in_range(
            quads(c.b, 0, c.weight_len, c.b.len() as int),
            pow2(log2_ceil(c.a.len() as int)) as int,
            pow2(log2_ceil(c.weight_len)) as int,
            pow2(pow_log(c)) as int,
        ),
        prefix_group(c).row.len() <= size_limit(),
        prefix_group(c).log_row == log2_ceil(c.a.len() as int),
        prefix_group(c).log_col == log2_ceil(c.weight_len),
        prefix_group(c).log_pow == pow_log(c),
{
    reveal(prefix_group);
    let q = quads(c.b, 0, c.weight_len, c.b.len() as int);
    let pows = circuit_max_pow(c) + 1;
    lemma_table_size(c.a.len() as int);
    lemma_table_size(c.weight_len);
    lemma_table_size(pows);
    lemma_log2_ceil(c.a.len() as int);
    lemma_log2_ceil(c.weight_len);
    lemma_log2_ceil(pows);
    lemma_quads(c.b, 0, c.weight_len, c.b.len() as int, c.z_len, pows);
    lemma_group_ok(q, log2_ceil(c.a.len() as int), log2_ceil(c.weight_len), pow_log(c));
}

/// The vectors for entries within the tables fit together.
proof fn lemma_group_ok(q: Seq<Quad>, lr: nat, lc: nat, lp: nat)
    requires
        q.len() <= size_limit(),
        lr >= 1,
        lc >= 1,
        lp >= 1,
        pow2(lr) < usize::MAX,
        pow2(lc) < usize::MAX,
        pow2(lp) < usize::MAX,
        quads_in_range(q, pow2(lr) as int, pow2(lc) as int, pow2(lp) as int),
    ensures
        group_ok(group_of(q, lr, lc, lp)),
{
    let g = group_of(q, lr, lc, lp);
    let e = not_empty(q);
    lemma_pow2_step(lr);
    lemma_pow2_step(lc);
    lemma_pow2_step(lp);
    lemma_table_size(e.len() as int);
    assert forall|k: int| 0 <= k < e.len() implies {
        &&& 0 <= #[trigger] g.row[k] < pow2(lr)
        &&& 0 <= #[trigger] g.col[k] < pow2(lc)
        &&& 0 <= #[trigger] g.pow[k] < pow2(lp)
    } by {
        if q.len() > 0 {
            assert(0 <= q[k].row < pow2(lr));
        }
    }
}

fn collect_entries(
    mat: &SparseMatrix,
    col_lo: usize,
    col_hi: usize,
    row_flag: usize,
    out: &mut Vec<(usize, usize, Fr, usize)>,
)
    requires
        row_flag + mat@.len() <= usize::MAX,
    ensures
        quads_of(final(out)@) == quads_of(old(out)@) + moved(
            quads(mat@, col_lo as int, col_hi as int, mat@.len() as int),
            row_flag as int,
        ),
{
    let ghost start = quads_of(out@);
    let ghost rows = mat@;
    let ghost lo = col_lo as int;
    let ghost hi = col_hi as int;
    assert(start =~= start + moved(quads(rows, lo, hi, 0), row_flag as int));
    for i in 0..mat.rows.len()
        invariant
            rows == mat@,
            lo == col_lo,
            hi == col_hi,
            row_flag + rows.len() <= usize::MAX,
            quads_of(out@) == start + moved(quads(rows, lo, hi, i as int), row_flag as int),
    {
        let ghost row = rows[i as int];
        let ghost before = quads_of(out@);
        assert(row == mat.rows[i as int]@);
        let width: usize = mat.rows[i].elems.len();
        assert(before =~= before + moved(row_quads(row, i as int, lo, hi, 0), row_flag as int));
        for k in 0..width
            invariant
                i < mat.rows.len(),
                rows == mat@,
                row == mat.rows[i as int]@,
                width == mat.rows[i as int].elems.len(),
                lo == col_lo,
                hi == col_hi,
                row_flag + rows.len() <= usize::MAX,
                i < rows.len(),
                quads_of(out@) == before + moved(
                    row_quads(row, i as int, lo, hi, k as int),
                    row_flag as int,
                ),
        {
            let e = mat.rows[i].elems[k];
            assert(row[k as int] == crate::circuit::entry_of(e));
            if e.0 >= col_lo && e.0 < col_hi {
                let p: usize = match e.2 {
                    Some(p) => p,
                    None => 0,
                };
                let ghost cur = quads_of(out@);
                out.push((row_flag + i, e.0 - col_lo, e.1, p));
                assert(quads_of(out@) =~= cur.push(
                    Quad {
                        row: row_flag + i,
                        col: e.0 - col_lo,
                        val: e.1@,
                        pow: p as int,
                    },
                ));
                assert(quads_of(out@) =~= before + moved(
                    row_quads(row, i as int, lo, hi, k + 1),
                    row_flag as int,
                ));
            }
        }
        assert(quads_of(out@) =~= start + moved(quads(rows, lo, hi, i + 1), row_flag as int));
    }
}

/// The views of a list of entries.
pub open spec fn quads_of(v: Seq<(usize, usize, Fr, usize)>) -> Seq<Quad> {
    v.map_values(
        |e: (usize, usize, Fr, usize)|
            Quad { row: e.0 as int, col: e.1 as int, val: e.2@, pow: e.3 as int },
    )
}

pub(crate) fn count_exec(idx: &Vec<usize>, n: usize) -> (out: Vec<Fr>)
    requires
        below(indices(idx@), n as int),
    ensures
        values(out@) == counts(indices(idx@), n as int),
{
    let mut out = filled(Fr::zero(), n);
    let one = Fr::one();
    let ghost iv = indices(idx@);
    for k in 0..idx.len()
        invariant
            iv == indices(idx@),
            below(iv, n as int),
            one@ == 1,
            out.len() == n,
            forall|i: int|
                0 <= i < n ==> (#[trigger] out[i])@ == sum_to(
                    k as int,
                    |k: int| one_if(iv[k] == i),
                ),
    {
        assert(0 <= iv[k as int] < n);
        let j: usize = idx[k];
        let x = out[j] + one;
        out.set(j, x);
    }
    assert(values(out@) =~= counts(iv, n as int));
    out
}

fn build_group(
    entries: Vec<(usize, usize, Fr, usize)>,
    log_row: usize,
    log_col: usize,
    log_pow: usize,
) -> (out: BPreGroup)
    requires
        pow2(log_row as nat) <= usize::MAX,
        pow2(log_col as nat) <= usize::MAX,
        pow2(log_pow as nat) <= usize::MAX,
        quads_in_range(
            quads_of(entries@),
            pow2(log_row as nat) as int,
            pow2(log_col as nat) as int,
            pow2(log_pow as nat) as int,
        ),
    ensures
        out@ == group_of(
            quads_of(entries@),
            log_row as nat,
            log_col as nat,
            log_pow as nat,
        ),
        out.indexed(),
        out.len == out@.row.len(),
{
    let ghost orig = quads_of(entries@);
    let ghost q = not_empty(orig);
    let mut entries = entries;
    if entries.len() == 0 {
        entries.push((0, 0, Fr::zero(), 0));
        proof {
            lemma_pow2_step(log_row as nat);
            lemma_pow2_step(log_col as nat);
            lemma_pow2_step(log_pow as nat);
        }
    }
    assert(quads_of(entries@) =~= q);
    let mut row: Vec<Fr> = Vec::new();
    let mut col: Vec<Fr> = Vec::new();
    let mut val: Vec<Fr> = Vec::new();
    let mut pow: Vec<Fr> = Vec::new();
    let mut row_idx: Vec<usize> = Vec::new();
    let mut col_idx: Vec<usize> = Vec::new();
    let mut pow_idx: Vec<usize> = Vec::new();
    for k in 0..entries.len()
        invariant
            quads_of(entries@) == q,
            row.len() == k,
            col.len() == k,
            val.len() == k,
            pow.len() == k,
            row_idx.len() == k,
            col_idx.len() == k,
            pow_idx.len() == k,
            forall|j: int| 0 <= j < k ==> (#[trigger] row[j])@ == q[j].row,
            forall|j: int| 0 <= j < k ==> (#[trigger] col[j])@ == q[j].col,
            forall|j: int| 0 <= j < k ==> (#[trigger] val[j])@ == q[j].val,
            forall|j: int| 0 <= j < k ==> (#[trigger] pow[j])@ == q[j].pow,
            forall|j: int| 0 <= j < k ==> (#[trigger] row_idx[j]) == q[j].row,
            forall|j: int| 0 <= j < k ==> (#[trigger] col_idx[j]) == q[j].col,
            forall|j: int| 0 <= j < k ==> (#[trigger] pow_idx[j]) == q[j].pow,
    {
        let e = entries[k];
        assert(q[k as int].row == e.0 && q[k as int].col == e.1 && q[k as int].val == e.2@
            && q[k as int].pow == e.3);
        row.push(Fr::from_usize(e.0));
        col.push(Fr::from_usize(e.1));
        val.push(e.2);
        pow.push(Fr::from_usize(e.3));
        row_idx.push(e.0);
        col_idx.push(e.1);
        pow_idx.push(e.3);
    }
    let ghost g = group_of(orig, log_row as nat, log_col as nat, log_pow as nat);
    proof {
        assert(indices(row_idx@) =~= g.row);
        assert(indices(col_idx@) =~= g.col);
        assert(indices(pow_idx@) =~= g.pow);
        assert(values(row@) =~= g.row);
        assert(values(col@) =~= g.col);
        assert(values(val@) =~= g.val);
        assert(values(pow@) =~= g.pow);
        assert forall|k: int| 0 <= k < q.len() implies {
            &&& 0 <= #[trigger] g.row[k] < pow2(log_row as nat)
            &&& 0 <= #[trigger] g.col[k] < pow2(log_col as nat)
            &&& 0 <= #[trigger] g.pow[k] < pow2(log_pow as nat)
        } by {
            if orig.len() > 0 {
                assert(0 <= orig[k].row < pow2(log_row as nat));
            }
        }
    }
    let count_row = count_exec(&row_idx, two_pow(log_row));
    let count_col = count_exec(&col_idx, two_pow(log_col));
    let count_pow = count_exec(&pow_idx, two_pow(log_pow));
    BPreGroup {
        len: row.len(),
        log_row,
        log_col,
        log_pow,
        row: MlPoly(row),
        col: MlPoly(col),
        val: MlPoly(val),
        pow: MlPoly(pow),
        count_row: MlPoly(count_row),
        count_col: MlPoly(count_col),
        count_pow: MlPoly(count_pow),
        row_idx,
        col_idx,
        pow_idx,
    }
}

fn max_pow_exec(mat: &SparseMatrix) -> (out: usize)
    ensures
        out == max_pow(mat@, mat@.len() as int),
{
    let ghost rows = mat@;
    let mut out: usize = 0;
    for i in 0..mat.rows.len()
        invariant
            rows == mat@,
            out == max_pow(rows, i as int),
    {
        let ghost row = rows[i as int];
        assert(row == mat.rows[i as int]@);
        let width: usize = mat.rows[i].elems.len();
        let mut here: usize = 0;
        for k in 0..width
            invariant
                i < mat.rows.len(),
                row == mat.rows[i as int]@,
                width == mat.rows[i as int].elems.len(),
                here == row_max_pow(row, k as int),
        {
            let e = mat.rows[i].elems[k];
            assert(row[k as int] == crate::circuit::entry_of(e));
            let p: usize = match e.2 {
                Some(p) => p,
                None => 0,
            };
            if here < p {
                here = p;
            }
        }
        if out < here {
            out = here;
        }
    }
    out
}

fn max2_exec(a: usize, b: usize) -> (out: usize)
    ensures
        out == max2(a as int, b as int),
{
    if a >= b {
        a
    } else {
        b
    }
}

fn commit_group(srs: &MkzgProveParams, g: &EntryGroup) -> (out: BPreCommit)
    requires
        0 < srs@.len() <= size_limit(),
        g@.row.len() <= 4 * size_limit(),
        g@.col.len() == g@.row.len(),
        g@.val.len() == g@.row.len(),
        g@.pow.len() == g@.row.len(),
        g@.count_row.len() <= 4 * size_limit(),
        g@.count_col.len() <= 4 * size_limit(),
        g@.count_pow.len() <= 4 * size_limit(),
    ensures
        out@ == group_commits(srs@, g@),
        out.len == g@.row.len(),
{
    proof {
        assert(g@.row.len() == g.row.0.len());
        assert(g@.col.len() == g.col.0.len());
        assert(g@.val.len() == g.val.0.len());
        assert(g@.pow.len() == g.pow.0.len());
        assert(g@.count_row.len() == g.count_row.0.len());
        assert(g@.count_col.len() == g.count_col.0.len());
        assert(g@.count_pow.len() == g.count_pow.0.len());
    }
    BPreCommit {
        len: g.row.0.len(),
        log_row: g.log_row,
        log_col: g.log_col,
        log_pow: g.log_pow,
        row: Mkzg::commit(srs, g.row),
        col: Mkzg::commit(srs, g.col),
        val: Mkzg::commit(srs, g.val),
        pow: Mkzg::commit(srs, g.pow),
        count_row: Mkzg::commit(srs, g.count_row),
        count_col: Mkzg::commit(srs, g.count_col),
        count_pow: Mkzg::commit(srs, g.count_pow),
    }
}

impl SparsePolys {
    /// The groups are those of a circuit.
    pub open spec fn holds(&self, c: CircuitView) -> bool {
        &&& self.supergroups.len() == NUM_SUPERGROUPS
        &&& self.supergroups[0]@ == suffix_group(c)
        &&& self.supergroups[0].len == suffix_group(c).row.len()
        &&& self.supergroups[0].indexed()
        &&& indices(self.supergroups[0].matrix_lens@) == suffix_lens(c)
        &&& self.b_pre@ == prefix_group(c)
        &&& self.b_pre.len == prefix_group(c).row.len()
        &&& self.b_pre.indexed()
    }
}

impl SparseCommits {
    /// The commitments are those to the groups of a circuit.
    pub open spec fn commits_to(&self, srs: Seq<int>, c: CircuitView) -> bool {
        &&& self.supergroups.len() == NUM_SUPERGROUPS
        &&& self.supergroups[0]@ == group_commits(srs, suffix_group(c))
        &&& self.supergroups[0].len == suffix_group(c).row.len()
        &&& indices(self.supergroups[0].matrix_lens@) == suffix_lens(c)
        &&& self.b_pre@ == group_commits(srs, prefix_group(c))
        &&& self.b_pre.len == prefix_group(c).row.len()
    }
}

/// Collects the entries of a circuit.
pub fn sparse_polys(circuit: &Circuit) -> (out: SparsePolys)
    requires
        circuit_fits(circuit@, 1),
    ensures
        out.holds(circuit@),
{
    reveal(suffix_group);
    reveal(prefix_group);
    let ghost c = circuit@;
    let wei_len: usize = circuit.weight_len;
    let z_len: usize = circuit.z_len;
    let log_row_abc: usize = log2_ceil_exec(circuit.a.len());
    let log_row_de: usize = log2_ceil_exec(circuit.d.len());
    let base: usize = max2_exec(log_row_abc, log_row_de);
    let log_col_suf: usize = log2_ceil_exec(z_len - wei_len);
    let log_col_pre: usize = log2_ceil_exec(wei_len);
    let top_pow: usize = max2_exec(
        max2_exec(
            max2_exec(max_pow_exec(&circuit.a), max_pow_exec(&circuit.b)),
            max2_exec(max_pow_exec(&circuit.c), max_pow_exec(&circuit.d)),
        ),
        max_pow_exec(&circuit.e),
    );
    let log_pow: usize = log2_ceil_exec(top_pow + 1);
    proof {
        lemma_suffix_group(c, 1);
        lemma_prefix_group(c, 1);
        lemma_table_size(c.a.len() as int);
        lemma_table_size(c.d.len() as int);
        lemma_table_size(c.z_len - c.weight_len);
        lemma_table_size(c.weight_len);
        lemma_table_size(circuit_max_pow(c) + 1);
        lemma_pow2_step(base as nat);
    }
    let flag: usize = two_pow(base);
    let all: usize = usize::MAX;
    let mut entries: Vec<(usize, usize, Fr, usize)> = Vec::new();
    let mut lens: Vec<usize> = Vec::new();
    assert(quads_of(entries@) =~= Seq::<Quad>::empty());
    collect_entries(&circuit.a, wei_len, all, 0, &mut entries);
    assert(entries.len() == quads_of(entries@).len());
    lens.push(entries.len());
    let n1: usize = entries.len();
    collect_entries(&circuit.b, wei_len, all, 0, &mut entries);
    assert(entries.len() == quads_of(entries@).len());
    lens.push(entries.len() - n1);
    let n2: usize = entries.len();
    collect_entries(&circuit.c, wei_len, all, 0, &mut entries);
    assert(entries.len() == quads_of(entries@).len());
    lens.push(entries.len() - n2);
    let n3: usize = entries.len();
    collect_entries(&circuit.d, wei_len, all, flag, &mut entries);
    assert(entries.len() == quads_of(entries@).len());
    lens.push(entries.len() - n3);
    let n4: usize = entries.len();
    collect_entries(&circuit.e, wei_len, all, flag, &mut entries);
    assert(entries.len() == quads_of(entries@).len());
    lens.push(entries.len() - n4);
    proof {
        assert(quads_of(entries@) =~= all_suffix_quads(c));
        assert(indices(lens@) =~= suffix_lens(c));
    }
    let sup = build_group(entries, base + 1, log_col_suf, log_pow);
    let mut pre: Vec<(usize, usize, Fr, usize)> = Vec::new();
    collect_entries(&circuit.b, 0, wei_len, 0, &mut pre);
    proof {
        assert(quads_of(pre@) =~= quads(c.b, 0, c.weight_len, c.b.len() as int));
    }
    let b_pre = build_group(pre, log_row_abc, log_col_pre, log_pow);
    let mut groups: Vec<SparseSupergroup> = Vec::new();
    groups.push(
        SparseSupergroup {
            len: sup.len,
            log_row: sup.log_row,
            log_col: sup.log_col,
            log_pow: sup.log_pow,
            row: sup.row,
            col: sup.col,
            val: sup.val,
            pow: sup.pow,
            count_row: sup.count_row,
            count_col: sup.count_col,
            count_pow: sup.count_pow,
            row_idx: sup.row_idx,
            col_idx: sup.col_idx,
            pow_idx: sup.pow_idx,
            matrix_lens: lens,
        },
    );
    SparsePolys { supergroups: groups, b_pre }
}

/// Collects the entries of a circuit and commits to them.
pub fn sparse_commit(kzg_pp: &MkzgProveParams, circuit: &Circuit) -> (out: (
    SparsePolys,
    SparseCommits,
))
    requires
        circuit_fits(circuit@, kzg_pp@.len() as int),
    ensures
        out.0.holds(circuit@),
        out.1.commits_to(kzg_pp@, circuit@),
{
    let ghost c = circuit@;
    let polys = sparse_polys(circuit);
    proof {
        lemma_suffix_group(c, kzg_pp@.len() as int);
        lemma_prefix_group(c, kzg_pp@.len() as int);
        lemma_table_size(c.a.len() as int);
        lemma_table_size(c.d.len() as int);
        lemma_table_size(c.z_len - c.weight_len);
        lemma_table_size(c.weight_len);
        lemma_table_size(circuit_max_pow(c) + 1);
        lemma_pow2_step(row_base_log(c));
        reveal(suffix_group);
        reveal(prefix_group);
    }
    let sup = &polys.supergroups[0];
    let sup_commit = commit_group(kzg_pp, &sup.entries());
    let b_pre = commit_group(kzg_pp, &polys.b_pre.entries());
    let mut lens: Vec<usize> = Vec::new();
    for i in 0..sup.matrix_lens.len()
        invariant
            lens@ == sup.matrix_lens@.take(i as int),
    {
        lens.push(sup.matrix_lens[i]);
        assert(sup.matrix_lens@.take(i + 1) =~= sup.matrix_lens@.take(i as int).push(
            sup.matrix_lens[i as int],
        ));
    }
    assert(sup.matrix_lens@.take(sup.matrix_lens.len() as int) =~= sup.matrix_lens@);
    let mut commits: Vec<SparseSupergroupCommit> = Vec::new();
    commits.push(
        SparseSupergroupCommit {
            len: sup_commit.len,
            log_row: sup_commit.log_row,
            log_col: sup_commit.log_col,
            log_pow: sup_commit.log_pow,
            row: sup_commit.row,
            col: sup_commit.col,
            val: sup_commit.val,
            pow: sup_commit.pow,
            count_row: sup_commit.count_row,
            count_col: sup_commit.count_col,
            count_pow: sup_commit.count_pow,
            matrix_lens: lens,
        },
    );
    (polys, SparseCommits { supergroups: commits, b_pre })
}

} // verus!
