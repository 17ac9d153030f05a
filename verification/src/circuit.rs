//! Arithmetic circuits with lookups, over sparse matrices.
use vstd::prelude::*;
use vstd::arithmetic::power::*;
use crate::field::{Fr, cong, copied, filled, values};
use crate::sums::sum_to;

verus! {

/// The bound on the quotients of divisions.
pub const QUOTIENT_BOUND: i64 = 1048576;

/// What a row of the lookup table is for.
#[derive(Debug, Clone, Copy, PartialEq, Eq, Structural)]
pub enum LookupType {
    Ge0,
    Relu,
    Gelu,
    Exp,
    Recip,
    Rsqrt,
    /// A remainder modulo the divisor.
    Range(i64),
    /// A quotient below the bound.
    Bound(i64),
}

impl LookupType {
    /// The number that marks the rows of this type in a table.
    pub open spec fn tag_of(self) -> int {
        match self {
            LookupType::Ge0 => 1,
            LookupType::Relu => 2,
            LookupType::Gelu => 3,
            LookupType::Exp => 4,
            LookupType::Recip => 5,
            LookupType::Rsqrt => 6,
            LookupType::Range(divisor) => -divisor,
            LookupType::Bound(bound) => bound + 7,
        }
    }

    /// The mark is a word.
    pub open spec fn tag_fits(self) -> bool {
        i64::MIN <= self.tag_of() <= i64::MAX
    }

    /// The number that marks the rows of this type in a table.
    pub fn tag(self) -> (out: i64)
        requires
            self.tag_fits(),
        ensures
            out == self.tag_of(),
    {
        match self {
            LookupType::Ge0 => 1,
            LookupType::Relu => 2,
            LookupType::Gelu => 3,
            LookupType::Exp => 4,
            LookupType::Recip => 5,
            LookupType::Rsqrt => 6,
            LookupType::Range(divisor) => -divisor,
            LookupType::Bound(bound) => bound + 7,
        }
    }
}

/// An entry of a sparse row: a coefficient for a column, times a power of the
/// randomizer.
pub ghost struct Entry {
    pub col: int,
    pub val: int,
    pub pow: int,
}

/// The product of a row with the first `n` entries of it, and a vector.
pub open spec fn row_value(row: Seq<Entry>, z: Seq<int>, gamma: int) -> int {
    sum_to(row.len() as int, |k: int| z[row[k].col] * row[k].val * pow(gamma, row[k].pow as nat))
}

/// The columns of a row are within a vector of the given length.
pub open spec fn row_in_range(row: Seq<Entry>, len: int) -> bool {
    forall|k: int| 0 <= k < row.len() ==> 0 <= (#[trigger] row[k]).col < len
}

/// The view of an element of a row.
pub open spec fn entry_of(e: (usize, Fr, Option<usize>)) -> Entry {
    Entry {
        col: e.0 as int,
        val: e.1@,
        pow: match e.2 {
            Some(p) => p as int,
            None => 0,
        },
    }
}

/// The entries of a row of integer coefficients without powers.
pub open spec fn plain_row(row: Seq<(usize, i64)>) -> Seq<Entry> {
    row.map_values(|e: (usize, i64)| Entry { col: e.0 as int, val: e.1 as int, pow: 0 })
}

/// The entries of a row of integer coefficients with powers.
pub open spec fn powered_row(row: Seq<(usize, i64, Option<usize>)>) -> Seq<Entry> {
    row.map_values(
        |e: (usize, i64, Option<usize>)|
            Entry {
                col: e.0 as int,
                val: e.1 as int,
                pow: match e.2 {
                    Some(p) => p as int,
                    None => 0,
                },
            },
    )
}

/// A sparse row.
#[derive(Clone)]
pub struct SparseRow {
    pub elems: Vec<(usize, Fr, Option<usize>)>,
}

impl View for SparseRow {
    type V = Seq<Entry>;

    open spec fn view(&self) -> Seq<Entry> {
        self.elems@.map_values(|e: (usize, Fr, Option<usize>)| entry_of(e))
    }
}

impl SparseRow {
    /// Each entry carries a power of the randomizer, or none does.
    pub open spec fn carries(&self, powers: bool) -> bool {
        forall|k: int|
            0 <= k < self.elems.len() ==> (#[trigger] self.elems[k]).2 is Some == powers
    }
}

/// The power of the randomizer that an entry carries.
fn power_of(gamma: Fr, p: Option<usize>) -> (out: Fr)
    ensures
        out@ == pow(
            gamma@,
            match p {
                Some(e) => e as nat,
                None => 0,
            },
        ),
{
    match p {
        Some(e) => gamma.pow(e as u64),
        None => {
            proof {
                lemma_pow0(gamma@);
            }
            Fr::one()
        },
    }
}

impl SparseRow {
    /// The row with the given coefficients.
    pub fn from_row(row: &Vec<(usize, i64)>) -> (out: SparseRow)
        ensures
            out@ == plain_row(row@),
            out.carries(false),
    {
        let mut elems: Vec<(usize, Fr, Option<usize>)> = Vec::new();
        for i in 0..row.len()
            invariant
                elems.len() == i,
                forall|k: int| 0 <= k < i ==> (#[trigger] elems[k]).2 is None,
                forall|k: int| 0 <= k < i ==> entry_of(#[trigger] elems[k]) == plain_row(row@)[k],
        {
            elems.push((row[i].0, Fr::from_i64(row[i].1), None));
        }
        let out = SparseRow { elems };
        assert(out@ =~= plain_row(row@));
        out
    }

    /// The row with the given coefficients and powers.
    pub fn from_row_with_idx(row: &Vec<(usize, i64, Option<usize>)>) -> (out: SparseRow)
        ensures
            out@ == powered_row(row@),
            out.elems.len() == row.len(),
            forall|k: int| 0 <= k < row.len() ==> (#[trigger] out.elems[k]).2 == row[k].2,
    {
        let mut elems: Vec<(usize, Fr, Option<usize>)> = Vec::new();
        for i in 0..row.len()
            invariant
                elems.len() == i,
                forall|k: int| 0 <= k < i ==> (#[trigger] elems[k]).2 == row[k].2,
                forall|k: int| 0 <= k < i ==> entry_of(#[trigger] elems[k]) == powered_row(row@)[k],
        {
            elems.push((row[i].0, Fr::from_i64(row[i].1), row[i].2));
        }
        let out = SparseRow { elems };
        assert(out@ =~= powered_row(row@));
        out
    }

    /// The product of the row with a vector.
    pub fn mult_vec(&self, z: &Vec<Fr>, gamma: Fr) -> (out: Fr)
        requires
            row_in_range(self@, z.len() as int),
        ensures
            out@ == row_value(self@, values(z@), gamma@),
    {
        let mut s = Fr::zero();
        let ghost row = self@;
        let ghost zv = values(z@);
        for k in 0..self.elems.len()
            invariant
                row == self@,
                zv == values(z@),
                row_in_range(row, z.len() as int),
                s@ == sum_to(
                    k as int,
                    |k: int| zv[row[k].col] * row[k].val * pow(gamma@, row[k].pow as nat),
                ),
        {
            let e = self.elems[k];
            assert(row[k as int] == entry_of(e));
            s = s + z[e.0] * e.1 * power_of(gamma, e.2);
        }
        s
    }

    /// The columns are within a vector of the given length.
    pub fn in_range(&self, len: usize) -> (out: bool)
        ensures
            out == row_in_range(self@, len as int),
    {
        let ghost row = self@;
        for k in 0..self.elems.len()
            invariant
                row == self@,
                forall|j: int| 0 <= j < k ==> 0 <= (#[trigger] row[j]).col < len,
        {
            assert(row[k as int] == entry_of(self.elems[k as int]));
            if self.elems[k].0 >= len {
                return false;
            }
        }
        true
    }

    /// A copy.
    pub fn copy(&self) -> (out: SparseRow)
        ensures
            out.elems@ == self.elems@,
    {
        let mut elems: Vec<(usize, Fr, Option<usize>)> = Vec::new();
        for i in 0..self.elems.len()
            invariant
                elems@ == self.elems@.take(i as int),
        {
            elems.push(self.elems[i]);
            assert(self.elems@.take(i + 1) == self.elems@.take(i as int).push(
                self.elems[i as int],
            ));
        }
        assert(self.elems@.take(self.elems.len() as int) == self.elems@);
        SparseRow { elems }
    }
}

/// The contribution of an entry, in a row with weight `w`, to column `c`.
pub open spec fn entry_term(e: Entry, c: int, w: int, gamma: int) -> int {
    if e.col == c {
        w * e.val * pow(gamma, e.pow as nat)
    } else {
        0
    }
}

/// The contribution of the first `n` entries of a row to column `c`.
pub open spec fn row_column(row: Seq<Entry>, n: int, c: int, w: int, gamma: int) -> int {
    sum_to(n, |k: int| entry_term(row[k], c, w, gamma))
}

/// The entry for column `c` of the product of a vector with the first `n` rows.
pub open spec fn column_value(
    rows: Seq<Seq<Entry>>,
    n: int,
    v: Seq<int>,
    c: int,
    gamma: int,
) -> int {
    sum_to(n, |i: int| row_column(rows[i], rows[i].len() as int, c, v[i], gamma))
}

/// The contribution of an entry to the value of the matrix at a pair of points.
pub open spec fn mle_term(
    e: Entry,
    re: int,
    col_eq: Seq<int>,
    lo: int,
    hi: int,
    gamma: int,
) -> int {
    if lo <= e.col < hi {
        re * col_eq[e.col - lo] * e.val * pow(gamma, e.pow as nat)
    } else {
        0
    }
}

/// The value at a pair of points of the matrix, restricted to the columns from
/// `lo` to `hi`.
pub open spec fn matrix_mle(
    rows: Seq<Seq<Entry>>,
    n: int,
    row_eq: Seq<int>,
    col_eq: Seq<int>,
    lo: int,
    hi: int,
    gamma: int,
) -> int {
    sum_to(
        n,
        |i: int|
            sum_to(
                rows[i].len() as int,
                |k: int| mle_term(rows[i][k], row_eq[i], col_eq, lo, hi, gamma),
            ),
    )
}

/// The columns of all the rows are within a vector of the given length.
pub open spec fn matrix_in_range(rows: Seq<Seq<Entry>>, len: int) -> bool {
    forall|i: int| 0 <= i < rows.len() ==> row_in_range(#[trigger] rows[i], len)
}

/// A sparse matrix.
#[derive(Clone)]
pub struct SparseMatrix {
    pub rows: Vec<SparseRow>,
}

impl View for SparseMatrix {
    type V = Seq<Seq<Entry>>;

    open spec fn view(&self) -> Seq<Seq<Entry>> {
        self.rows@.map_values(|r: SparseRow| r@)
    }
}

impl SparseMatrix {
    /// The entries of the rows that are marked carry powers of the randomizer, those of the
    /// others carry none.
    pub open spec fn marked(&self, marks: Seq<bool>) -> bool {
        &&& self.rows.len() == marks.len()
        &&& forall|i: int| 0 <= i < marks.len() ==> (#[trigger] self.rows[i]).carries(marks[i])
    }

    /// A matrix without rows.
    pub fn new() -> (out: SparseMatrix)
        ensures
            out@ == Seq::<Seq<Entry>>::empty(),
            out.marked(Seq::empty()),
    {
        let out = SparseMatrix { rows: Vec::new() };
        assert(out@ =~= Seq::<Seq<Entry>>::empty());
        out
    }

    /// Appends a row with the given coefficients.
    pub fn append(&mut self, row: &Vec<(usize, i64)>)
        ensures
            final(self)@ == old(self)@.push(plain_row(row@)),
            forall|marks: Seq<bool>| #[trigger]
                old(self).marked(marks) ==> final(self).marked(marks.push(false)),
    {
        let ghost before = self@;
        self.rows.push(SparseRow::from_row(row));
        assert(self@ =~= before.push(plain_row(row@)));
    }

    /// Appends a row with the given coefficients and powers.
    pub fn append_with_idx(&mut self, row: &Vec<(usize, i64, Option<usize>)>)
        ensures
            final(self)@ == old(self)@.push(powered_row(row@)),
            (forall|k: int| 0 <= k < row.len() ==> (#[trigger] row[k]).2 is Some)
                ==> forall|marks: Seq<bool>| #[trigger]
                old(self).marked(marks) ==> final(self).marked(marks.push(true)),
            final(self).rows@.len() == old(self).rows@.len() + 1,
            forall|k: int|
                0 <= k < row.len() ==> (#[trigger] final(self).rows@.last().elems[k]).2
                    == row[k].2,
    {
        let ghost before = self@;
        self.rows.push(SparseRow::from_row_with_idx(row));
        assert(self@ =~= before.push(powered_row(row@)));
    }

    /// The number of rows.
    pub fn len(&self) -> (out: usize)
        ensures
            out == self@.len(),
    {
        self.rows.len()
    }

    /// The product of a row with a vector.
    pub fn mult_vec_at(&self, idx: usize, z: &Vec<Fr>, gamma: Fr) -> (out: Fr)
        requires
            idx < self@.len(),
            row_in_range(self@[idx as int], z.len() as int),
        ensures
            out@ == row_value(self@[idx as int], values(z@), gamma@),
    {
        self.rows[idx].mult_vec(z, gamma)
    }

    /// The columns from `pos` on of the product of a vector with the matrix.
    pub fn vec_mult_suf(&self, v: &Vec<Fr>, col_num: usize, pos: usize, gamma: Fr) -> (out: Vec<Fr>)
        requires
            v.len() >= self@.len(),
            pos <= col_num,
            matrix_in_range(self@, col_num as int),
        ensures
            out.len() == col_num - pos,
            forall|c: int|
                0 <= c < out.len() ==> (#[trigger] out[c])@ == column_value(
                    self@,
                    self@.len() as int,
                    values(v@),
                    pos + c,
                    gamma@,
                ),
    {
        let mut res = filled(Fr::zero(), col_num - pos);
        let ghost rows = self@;
        let ghost vv = values(v@);
        for i in 0..self.rows.len()
            invariant
                rows == self@,
                vv == values(v@),
                v.len() >= rows.len(),
                pos <= col_num,
                matrix_in_range(rows, col_num as int),
                res.len() == col_num - pos,
                forall|c: int|
                    0 <= c < res.len() ==> (#[trigger] res[c])@ == column_value(
                        rows,
                        i as int,
                        vv,
                        pos + c,
                        gamma@,
                    ),
        {
            let ghost row = rows[i as int];
            let ghost before = res@;
            assert(row == self.rows[i as int]@);
            let width: usize = self.rows[i].elems.len();
            for k in 0..width
                invariant
                    width == self.rows[i as int].elems.len(),
                    i < self.rows.len(),
                    row == self.rows[i as int]@,
                    vv == values(v@),
                    i < v.len(),
                    pos <= col_num,
                    row_in_range(row, col_num as int),
                    res.len() == col_num - pos,
                    before.len() == res.len(),
                    forall|c: int|
                        0 <= c < res.len() ==> (#[trigger] res[c])@ == before[c]@ + row_column(
                            row,
                            k as int,
                            pos + c,
                            vv[i as int],
                            gamma@,
                        ),
            {
                let e = self.rows[i].elems[k];
                assert(row[k as int] == entry_of(e));
                if e.0 >= pos {
                    let x = res[e.0 - pos] + v[i] * e.1 * power_of(gamma, e.2);
                    res.set(e.0 - pos, x);
                }
            }
            assert forall|c: int| 0 <= c < res.len() implies (#[trigger] res[c])@ == column_value(
                rows,
                i + 1,
                vv,
                pos + c,
                gamma@,
            ) by {
                assert(before[c]@ == column_value(rows, i as int, vv, pos + c, gamma@));
            }
        }
        res
    }

    /// The columns before `pos` of the product of a vector with the matrix.
    pub fn vec_mult_pre(&self, v: &Vec<Fr>, pos: usize, gamma: Fr) -> (out: Vec<Fr>)
        requires
            v.len() >= self@.len(),
            matrix_in_range(self@, usize::MAX + 1),
        ensures
            out.len() == pos,
            forall|c: int|
                0 <= c < out.len() ==> (#[trigger] out[c])@ == column_value(
                    self@,
                    self@.len() as int,
                    values(v@),
                    c,
                    gamma@,
                ),
    {
        let mut res = filled(Fr::zero(), pos);
        let ghost rows = self@;
        let ghost vv = values(v@);
        for i in 0..self.rows.len()
            invariant
                rows == self@,
                vv == values(v@),
                v.len() >= rows.len(),
                res.len() == pos,
                forall|c: int|
                    0 <= c < res.len() ==> (#[trigger] res[c])@ == column_value(
                        rows,
                        i as int,
                        vv,
                        c,
                        gamma@,
                    ),
        {
            let ghost row = rows[i as int];
            let ghost before = res@;
            assert(row == self.rows[i as int]@);
            let width: usize = self.rows[i].elems.len();
            for k in 0..width
                invariant
                    width == self.rows[i as int].elems.len(),
                    i < self.rows.len(),
                    row == self.rows[i as int]@,
                    vv == values(v@),
                    i < v.len(),
                    res.len() == pos,
                    before.len() == res.len(),
                    forall|c: int|
                        0 <= c < res.len() ==> (#[trigger] res[c])@ == before[c]@ + row_column(
                            row,
                            k as int,
                            c,
                            vv[i as int],
                            gamma@,
                        ),
            {
                let e = self.rows[i].elems[k];
                assert(row[k as int] == entry_of(e));
                if e.0 < pos {
                    let x = res[e.0] + v[i] * e.1 * power_of(gamma, e.2);
                    res.set(e.0, x);
                }
            }
            assert forall|c: int| 0 <= c < res.len() implies (#[trigger] res[c])@ == column_value(
                rows,
                i + 1,
                vv,
                c,
                gamma@,
            ) by {
                assert(before[c]@ == column_value(rows, i as int, vv, c, gamma@));
            }
        }
        res
    }

    /// The value of the matrix, restricted to the columns from `col_offset` to
    /// `col_limit`, at the points with the given `eq` vectors.
    pub fn mle(
        &self,
        row_eq: &Vec<Fr>,
        col_eq: &Vec<Fr>,
        col_offset: usize,
        col_limit: usize,
        gamma: Fr,
    ) -> (out: Fr)
        requires
            self@.len() <= row_eq.len(),
            forall|i: int, k: int|
                0 <= i < self@.len() && 0 <= k < self@[i].len() && col_offset
                    <= (#[trigger] self@[i][k]).col < col_limit ==> self@[i][k].col - col_offset
                    < col_eq.len(),
        ensures
            out@ == matrix_mle(
                self@,
                self@.len() as int,
                values(row_eq@),
                values(col_eq@),
                col_offset as int,
                col_limit as int,
                gamma@,
            ),
    {
        let mut result = Fr::zero();
        let ghost rows = self@;
        let ghost rv = values(row_eq@);
        let ghost cv = values(col_eq@);
        let ghost lo = col_offset as int;
        let ghost hi = col_limit as int;
        for i in 0..self.rows.len()
            invariant
                rows == self@,
                rv == values(row_eq@),
                cv == values(col_eq@),
                lo == col_offset,
                hi == col_limit,
                rows.len() <= row_eq.len(),
                forall|i: int, k: int|
                    0 <= i < rows.len() && 0 <= k < rows[i].len() && col_offset
                        <= (#[trigger] rows[i][k]).col < col_limit ==> rows[i][k].col - col_offset
                        < col_eq.len(),
                result@ == matrix_mle(rows, i as int, rv, cv, lo, hi, gamma@),
        {
            let re = row_eq[i];
            let ghost row = rows[i as int];
            let ghost before = result@;
            assert(row == self.rows[i as int]@);
            let width: usize = self.rows[i].elems.len();
            for k in 0..width
                invariant
                    width == self.rows[i as int].elems.len(),
                    i < self.rows.len(),
                    row == self.rows[i as int]@,
                    row == rows[i as int],
                    i < rows.len(),
                    cv == values(col_eq@),
                    lo == col_offset,
                    hi == col_limit,
                    forall|i: int, k: int|
                        0 <= i < rows.len() && 0 <= k < rows[i].len() && col_offset
                            <= (#[trigger] rows[i][k]).col < col_limit ==> rows[i][k].col
                            - col_offset < col_eq.len(),
                    result@ == before + sum_to(
                        k as int,
                        |k: int| mle_term(row[k], re@, cv, lo, hi, gamma@),
                    ),
            {
                let e = self.rows[i].elems[k];
                assert(rows[i as int][k as int] == entry_of(e));
                if e.0 >= col_offset && e.0 < col_limit {
                    result = result + re * col_eq[e.0 - col_offset] * e.1 * power_of(gamma, e.2);
                }
            }
            assert(rv[i as int] == re@);
        }
        result
    }

    /// The columns of all the rows are within a vector of the given length.
    pub fn in_range(&self, len: usize) -> (out: bool)
        ensures
            out == matrix_in_range(self@, len as int),
    {
        let ghost rows = self@;
        for i in 0..self.rows.len()
            invariant
                rows == self@,
                forall|j: int| 0 <= j < i ==> row_in_range(#[trigger] rows[j], len as int),
        {
            assert(rows[i as int] == self.rows[i as int]@);
            if !self.rows[i].in_range(len) {
                return false;
            }
        }
        true
    }

    /// A copy.
    pub fn copy(&self) -> (out: SparseMatrix)
        ensures
            out@ == self@,
    {
        let mut rows: Vec<SparseRow> = Vec::new();
        for i in 0..self.rows.len()
            invariant
                rows.len() == i,
                forall|j: int| 0 <= j < i ==> (#[trigger] rows[j])@ == self@[j],
        {
            rows.push(self.rows[i].copy());
        }
        let out = SparseMatrix { rows };
        assert(out@ =~= self@);
        out
    }
}

/// The rows of a lookup table: input, output and mark.
pub open spec fn table_rows(t: Seq<(Fr, Fr, Fr)>) -> Seq<(int, int, int)> {
    t.map_values(|r: (Fr, Fr, Fr)| (r.0@, r.1@, r.2@))
}

/// A table holds a row.
pub open spec fn table_has(t: Seq<(int, int, int)>, i: int, j: int, k: int) -> bool {
    exists|r: int|
        0 <= r < t.len() && cong((#[trigger] t[r]).0, i) && cong(t[r].1, j) && cong(t[r].2, k)
}

/// A circuit: products of two rows of a vector that equal a third, and pairs of
/// rows that stand in a table.
pub ghost struct CircuitView {
    pub a: Seq<Seq<Entry>>,
    pub b: Seq<Seq<Entry>>,
    pub c: Seq<Seq<Entry>>,
    pub d: Seq<Seq<Entry>>,
    pub e: Seq<Seq<Entry>>,
    pub tp: Seq<int>,
    pub weights: Seq<int>,
    pub weight_len: int,
    pub z_len: int,
    pub table: Seq<(int, int, int)>,
}

/// A vector satisfies a circuit.
pub open spec fn satisfied(c: CircuitView, z: Seq<int>, gamma: int) -> bool {
    &&& c.a.len() == c.b.len()
    &&& c.b.len() == c.c.len()
    &&& c.d.len() == c.e.len()
    &&& c.e.len() == c.tp.len()
    &&& matrix_in_range(c.a, z.len() as int)
    &&& matrix_in_range(c.b, z.len() as int)
    &&& matrix_in_range(c.c, z.len() as int)
    &&& matrix_in_range(c.d, z.len() as int)
    &&& matrix_in_range(c.e, z.len() as int)
    &&& forall|i: int|
        0 <= i < c.a.len() ==> cong(
            row_value(#[trigger] c.a[i], z, gamma) * row_value(c.b[i], z, gamma),
            row_value(c.c[i], z, gamma),
        )
    &&& forall|i: int|
        0 <= i < c.d.len() ==> table_has(
            c.table,
            row_value(#[trigger] c.d[i], z, gamma),
            row_value(c.e[i], z, gamma),
            c.tp[i],
        )
}

/// A circuit.
#[derive(Clone)]
pub struct Circuit {
    pub a: SparseMatrix,
    pub b: SparseMatrix,
    pub c: SparseMatrix,
    pub d: SparseMatrix,
    pub e: SparseMatrix,
    pub tp: Vec<Fr>,
    pub weights: Vec<Fr>,
    pub weight_len: usize,
    pub z_len: usize,
    pub table: Vec<(Fr, Fr, Fr)>,
}

impl View for Circuit {
    type V = CircuitView;

    open spec fn view(&self) -> CircuitView {
        CircuitView {
            a: self.a@,
            b: self.b@,
            c: self.c@,
            d: self.d@,
            e: self.e@,
            tp: values(self.tp@),
            weights: values(self.weights@),
            weight_len: self.weight_len as int,
            z_len: self.z_len as int,
            table: table_rows(self.table@),
        }
    }
}

/// A table holds a row.
fn table_contains(t: &Vec<(Fr, Fr, Fr)>, i: Fr, j: Fr, k: Fr) -> (out: bool)
    ensures
        out == table_has(table_rows(t@), i@, j@, k@),
{
    let ghost rows = table_rows(t@);
    for r in 0..t.len()
        invariant
            rows == table_rows(t@),
            forall|s: int|
                0 <= s < r ==> !(cong((#[trigger] rows[s]).0, i@) && cong(rows[s].1, j@) && cong(
                    rows[s].2,
                    k@,
                )),
    {
        assert(rows[r as int] == (t[r as int].0@, t[r as int].1@, t[r as int].2@));
        if t[r].0 == i && t[r].1 == j && t[r].2 == k {
            return true;
        }
    }
    false
}

impl Circuit {
    /// The circuit with the given parts.
    pub fn new(
        a: SparseMatrix,
        b: SparseMatrix,
        c: SparseMatrix,
        d: SparseMatrix,
        e: SparseMatrix,
        tp: Vec<LookupType>,
        weights: Vec<Fr>,
        weight_len: usize,
        z_len: usize,
        table: Vec<(Fr, Fr, Fr)>,
    ) -> (out: Circuit)
        requires
            forall|i: int| 0 <= i < tp.len() ==> (#[trigger] tp[i]).tag_fits(),
        ensures
            out@ == (CircuitView {
                a: a@,
                b: b@,
                c: c@,
                d: d@,
                e: e@,
                tp: tp@.map_values(|t: LookupType| t.tag_of()),
                weights: values(weights@),
                weight_len: weight_len as int,
                z_len: z_len as int,
                table: table_rows(table@),
            }),
            out.a == a,
            out.b == b,
            out.c == c,
            out.d == d,
            out.e == e,
    {
        let mut tags: Vec<Fr> = Vec::new();
        for i in 0..tp.len()
            invariant
                forall|i: int| 0 <= i < tp.len() ==> (#[trigger] tp[i]).tag_fits(),
                tags.len() == i,
                forall|j: int| 0 <= j < i ==> (#[trigger] tags[j])@ == tp[j].tag_of(),
        {
            tags.push(Fr::from_i64(tp[i].tag()));
        }
        assert(values(tags@) =~= tp@.map_values(|t: LookupType| t.tag_of()));
        Circuit { a, b, c, d, e, tp: tags, weights, weight_len, z_len, table }
    }

    /// A vector satisfies the circuit.
    pub fn check(&self, z: &Vec<Fr>, gamma: Fr) -> (out: bool)
        ensures
            out == satisfied(self@, values(z@), gamma@),
    {
        let ghost c = self@;
        let ghost zv = values(z@);
        if self.a.len() != self.b.len() || self.b.len() != self.c.len() || self.d.len()
            != self.e.len() || self.e.len() != self.tp.len() {
            return false;
        }
        let len: usize = z.len();
        if !self.a.in_range(len) || !self.b.in_range(len) || !self.c.in_range(len)
            || !self.d.in_range(len) || !self.e.in_range(len) {
            return false;
        }
        let cons: usize = self.a.len();
        for i in 0..cons
            invariant
                cons == c.a.len(),
                c == self@,
                zv == values(z@),
                len == z.len(),
                c.a.len() == c.b.len(),
                c.b.len() == c.c.len(),
                matrix_in_range(c.a, len as int),
                matrix_in_range(c.b, len as int),
                matrix_in_range(c.c, len as int),
                forall|j: int|
                    0 <= j < i ==> cong(
                        row_value(#[trigger] c.a[j], zv, gamma@) * row_value(c.b[j], zv, gamma@),
                        row_value(c.c[j], zv, gamma@),
                    ),
        {
            assert(row_in_range(c.a[i as int], len as int));
            assert(row_in_range(c.b[i as int], len as int));
            assert(row_in_range(c.c[i as int], len as int));
            if self.a.mult_vec_at(i, z, gamma) * self.b.mult_vec_at(i, z, gamma)
                != self.c.mult_vec_at(i, z, gamma) {
                return false;
            }
        }
        let lookups: usize = self.d.len();
        for i in 0..lookups
            invariant
                lookups == c.d.len(),
                c == self@,
                zv == values(z@),
                len == z.len(),
                c.d.len() == c.e.len(),
                c.e.len() == c.tp.len(),
                matrix_in_range(c.d, len as int),
                matrix_in_range(c.e, len as int),
                forall|j: int|
                    0 <= j < i ==> table_has(
                        c.table,
                        row_value(#[trigger] c.d[j], zv, gamma@),
                        row_value(c.e[j], zv, gamma@),
                        c.tp[j],
                    ),
        {
            assert(row_in_range(c.d[i as int], len as int));
            assert(row_in_range(c.e[i as int], len as int));
            let d = self.d.mult_vec_at(i, z, gamma);
            let e = self.e.mult_vec_at(i, z, gamma);
            if !table_contains(&self.table, d, e, self.tp[i]) {
                return false;
            }
        }
        true
    }

    /// A copy.
    pub fn copy(&self) -> (out: Circuit)
        ensures
            out@ == self@,
    {
        let mut table: Vec<(Fr, Fr, Fr)> = Vec::new();
        for i in 0..self.table.len()
            invariant
                table.len() == i,
                forall|j: int| 0 <= j < i ==> table[j] == self.table[j],
        {
            table.push(self.table[i]);
        }
        let out = Circuit {
            a: self.a.copy(),
            b: self.b.copy(),
            c: self.c.copy(),
            d: self.d.copy(),
            e: self.e.copy(),
            tp: copied(&self.tp),
            weights: copied(&self.weights),
            weight_len: self.weight_len,
            z_len: self.z_len,
            table,
        };
        assert(out@.table =~= self@.table);
        out
    }
}

} // verus!
