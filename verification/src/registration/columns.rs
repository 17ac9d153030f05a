//! The columns of the vectors that a registration commits to, in integers.
use vstd::prelude::*;
use vstd::arithmetic::div_mod::*;
use vstd::arithmetic::power2::*;
use crate::circuit::CircuitView;
use crate::field::{Fr, values};
use crate::poly::MlPoly;
use crate::registration::args::filled_to;
use crate::registration::encode::{
    EncodingView, NUM_OPCODES, NUM_OPERANDS, Opcode, ProgramEncoding, counted, counters_at,
    delta_at, deltas_fit, encoding_fits, lemma_counters, lemma_delta, numbers, operands_of, words,
};
use crate::registration::family::{
    Family, FamilyView, MAX_DIGITS, NUM_FAMILIES, PowTerm, ex_fits, ex_reads, ex_value, families,
    families_of, family_fits, family_views, family_wf, grid_size, lemma_families,
};
use crate::registration::witness::{
    RowInfo, XRow, cons_row, cons_rows, coordinates, families_fit, family_rows, instr_families_fit,
    is_linear, lemma_share_sum, lu_row, lu_rows, power_of, share, share_sum, sides_of, x_row,
    x_rows,
};
use crate::sparse::{
    all_suffix_quads, circuit_fits, cumulated, lemma_quads, lemma_suffix_group, moved, not_empty,
    row_base_log, size_limit, suffix_group, suffix_lens, suffix_quads,
};

verus! {

/// The vectors of an encoding hold its instructions and nothing else.
pub open spec fn encoding_exact(e: EncodingView) -> bool {
    let q = e.opcode.len();
    &&& e.sel.len() == NUM_OPCODES
    &&& e.opn.len() == NUM_OPERANDS
    &&& forall|j: int| 0 <= j < NUM_OPCODES ==> (#[trigger] e.sel[j]).len() == q
    &&& forall|s: int| 0 <= s < NUM_OPERANDS ==> (#[trigger] e.opn[s]).len() == q
    &&& e.out.len() == q
    &&& e.aux.len() == q
    &&& e.cr.len() == q
    &&& e.lr.len() == q
}

/// An encoding is right and its sizes fit in memory.
pub open spec fn encoding_ready(e: EncodingView) -> bool {
    &&& encoding_fits(e)
    &&& encoding_exact(e)
    &&& counted(e)
    &&& families_fit(e)
    &&& 0 <= e.weight_len
    &&& 0 <= e.input_len
    &&& 0 <= e.aux_start
    &&& e.z_len + 2 <= size_limit()
    &&& e.cons_line <= size_limit()
    &&& e.lu_line <= size_limit()
    &&& e.opcode.len() < size_limit()
}

/// The counters of an instruction fit in memory.
pub proof fn lemma_ready(e: EncodingView, i: int)
    requires
        encoding_ready(e),
        0 <= i < e.opcode.len(),
    ensures
        0 <= e.out[i] <= e.aux_start <= e.z_len,
        0 <= e.aux[i] <= e.z_len,
        0 <= e.cr[i],
        0 <= e.lr[i],
        e.out[i] + delta_at(e, i).out <= e.aux_start,
        e.aux[i] + delta_at(e, i).aux <= e.z_len,
        e.cr[i] + delta_at(e, i).cr <= e.cons_line,
        e.lr[i] + delta_at(e, i).lr <= e.lu_line,
        deltas_fit(e.opcode[i], operands_of(e, i)),
        delta_at(e, i).out >= 0,
        delta_at(e, i).aux >= 0,
        delta_at(e, i).cr >= 0,
        delta_at(e, i).lr >= 0,
{
    let q = e.opcode.len() as int;
    lemma_counters(e, 0, q);
    lemma_counters(e, i, q);
    lemma_counters(e, i + 1, q);
    assert(e.out[i] == counters_at(e, i).out);
    assert(deltas_fit(e.opcode[i], operands_of(e, i)));
    lemma_delta(e.opcode[i], operands_of(e, i));
}

/// The rows of the first instructions are as many as the counters say.
pub proof fn lemma_rows_len(e: EncodingView, n: int)
    requires
        encoding_ready(e),
        0 <= n <= e.opcode.len(),
    ensures
        cons_rows(e, n).len() == counters_at(e, n).cr,
        lu_rows(e, n).len() == counters_at(e, n).lr,
    decreases n,
{
    if n > 0 {
        lemma_rows_len(e, n - 1);
        lemma_ready(e, n - 1);
    }
}

/// The entries of the first instructions in a family are as many as their shares.
pub proof fn lemma_family_rows_len(e: EncodingView, f: int, n: int)
    requires
        families_fit(e),
        0 <= f < NUM_FAMILIES,
        0 <= n <= e.opcode.len(),
    ensures
        family_rows(e, families_of()[f], n).len() == share_sum(e, families_of()[f], n),
    decreases n,
{
    if n > 0 {
        lemma_family_rows_len(e, f, n - 1);
        lemma_share_sum(e, f, n - 1, n);
    }
}

/// The entries of the first families are as many as their lengths.
pub proof fn lemma_x_rows_len(e: EncodingView, n: int)
    requires
        families_fit(e),
        0 <= n <= NUM_FAMILIES,
    ensures
        x_rows(e, n).len() == cumulated(crate::registration::witness::family_lens_of(e), n),
    decreases n,
{
    lemma_families();
    if n > 0 {
        lemma_x_rows_len(e, n - 1);
        lemma_family_rows_len(e, n - 1, e.opcode.len() as int);
    }
}

/// A vector with a filler up to the given length.
pub fn padded(v: &Vec<i64>, len: usize, filler: i64) -> (out: Vec<i64>)
    requires
        v.len() <= len,
    ensures
        numbers(out@) == filled_to(numbers(v@), len as int, filler as int),
        out.len() == len,
{
    let mut out: Vec<i64> = Vec::new();
    let ghost want = filled_to(numbers(v@), len as int, filler as int);
    for i in 0..len
        invariant
            v.len() <= len,
            want == filled_to(numbers(v@), len as int, filler as int),
            out.len() == i,
            forall|j: int| 0 <= j < i ==> (#[trigger] out[j]) as int == want[j],
    {
        if i < v.len() {
            out.push(v[i]);
        } else {
            out.push(filler);
        }
    }
    assert(numbers(out@) =~= want);
    out
}

/// The polynomial with the given values.
pub fn to_poly(v: &Vec<i64>) -> (out: MlPoly)
    ensures
        out@ == numbers(v@),
        out.0.len() == v.len(),
{
    let mut out: Vec<Fr> = Vec::new();
    for i in 0..v.len()
        invariant
            out.len() == i,
            forall|j: int| 0 <= j < i ==> (#[trigger] out[j])@ == v[j],
    {
        out.push(Fr::from_i64(v[i]));
    }
    assert(values(out@) =~= numbers(v@));
    MlPoly(out)
}

/// A copy of words as numbers.
pub fn signed_words(v: &Vec<usize>) -> (out: Vec<i64>)
    requires
        forall|i: int| 0 <= i < v.len() ==> (#[trigger] v[i]) <= size_limit(),
    ensures
        numbers(out@) == words(v@),
        out.len() == v.len(),
{
    let mut out: Vec<i64> = Vec::new();
    for i in 0..v.len()
        invariant
            forall|i: int| 0 <= i < v.len() ==> (#[trigger] v[i]) <= size_limit(),
            out.len() == i,
            forall|j: int| 0 <= j < i ==> (#[trigger] out[j]) == v[j],
    {
        out.push(v[i] as i64);
    }
    assert(numbers(out@) =~= words(v@));
    out
}

/// What is known of the constraint rows.
pub struct ConsColumns {
    pub out: Vec<i64>,
    pub ptr: Vec<i64>,
    pub cr: Vec<i64>,
    pub dcr: Vec<i64>,
    pub lin: Vec<i64>,
    pub lo: Vec<i64>,
    pub hi: Vec<i64>,
}

impl ConsColumns {
    /// The columns are those of some rows.
    pub open spec fn holds(&self, rows: Seq<RowInfo>) -> bool {
        &&& numbers(self.out@) == rows.map_values(|r: RowInfo| r.out)
        &&& numbers(self.ptr@) == rows.map_values(|r: RowInfo| r.ptr)
        &&& numbers(self.cr@) == rows.map_values(|r: RowInfo| r.cr)
        &&& numbers(self.dcr@) == rows.map_values(|r: RowInfo| r.dcr)
        &&& numbers(self.lin@) == rows.map_values(|r: RowInfo| r.lin)
        &&& numbers(self.lo@) == rows.map_values(|r: RowInfo| r.lo)
        &&& numbers(self.hi@) == rows.map_values(|r: RowInfo| r.hi)
    }

    fn push(&mut self, out: i64, ptr: i64, cr: i64, dcr: i64, lin: i64, lo: i64, hi: i64)
        ensures
            forall|rows: Seq<RowInfo>|
                old(self).holds(rows) ==> final(self).holds(
                    #[trigger] rows.push(
                        RowInfo {
                            out: out as int,
                            ptr: ptr as int,
                            cr: cr as int,
                            dcr: dcr as int,
                            lin: lin as int,
                            lo: lo as int,
                            hi: hi as int,
                        },
                    ),
                ),
    {
        let ghost before = *self;
        self.out.push(out);
        self.ptr.push(ptr);
        self.cr.push(cr);
        self.dcr.push(dcr);
        self.lin.push(lin);
        self.lo.push(lo);
        self.hi.push(hi);
        proof {
            assert forall|rows: Seq<RowInfo>| before.holds(rows) implies self.holds(
                #[trigger] rows.push(
                    RowInfo {
                        out: out as int,
                        ptr: ptr as int,
                        cr: cr as int,
                        dcr: dcr as int,
                        lin: lin as int,
                        lo: lo as int,
                        hi: hi as int,
                    },
                ),
            ) by {
                let next = rows.push(
                    RowInfo {
                        out: out as int,
                        ptr: ptr as int,
                        cr: cr as int,
                        dcr: dcr as int,
                        lin: lin as int,
                        lo: lo as int,
                        hi: hi as int,
                    },
                );
                assert(numbers(self.out@) =~= numbers(before.out@).push(out as int));
                assert(numbers(self.ptr@) =~= numbers(before.ptr@).push(ptr as int));
                assert(numbers(self.cr@) =~= numbers(before.cr@).push(cr as int));
                assert(numbers(self.dcr@) =~= numbers(before.dcr@).push(dcr as int));
                assert(numbers(self.lin@) =~= numbers(before.lin@).push(lin as int));
                assert(numbers(self.lo@) =~= numbers(before.lo@).push(lo as int));
                assert(numbers(self.hi@) =~= numbers(before.hi@).push(hi as int));
                assert(next.map_values(|r: RowInfo| r.out) =~= numbers(self.out@));
                assert(next.map_values(|r: RowInfo| r.ptr) =~= numbers(self.ptr@));
                assert(next.map_values(|r: RowInfo| r.cr) =~= numbers(self.cr@));
                assert(next.map_values(|r: RowInfo| r.dcr) =~= numbers(self.dcr@));
                assert(next.map_values(|r: RowInfo| r.lin) =~= numbers(self.lin@));
                assert(next.map_values(|r: RowInfo| r.lo) =~= numbers(self.lo@));
                assert(next.map_values(|r: RowInfo| r.hi) =~= numbers(self.hi@));
            }
        }
    }

    /// What is known of the constraint rows of a program.
    pub fn new(enc: &ProgramEncoding) -> (out: ConsColumns)
        requires
            encoding_ready(enc@),
        ensures
            out.holds(cons_rows(enc@, enc@.opcode.len() as int)),
    {
        let ghost e = enc@;
        let mut all = ConsColumns {
            out: Vec::new(),
            ptr: Vec::new(),
            cr: Vec::new(),
            dcr: Vec::new(),
            lin: Vec::new(),
            lo: Vec::new(),
            hi: Vec::new(),
        };
        proof {
            let none = Seq::<RowInfo>::empty();
            assert(numbers(all.out@) =~= none.map_values(|r: RowInfo| r.out));
            assert(numbers(all.ptr@) =~= none.map_values(|r: RowInfo| r.ptr));
            assert(numbers(all.cr@) =~= none.map_values(|r: RowInfo| r.cr));
            assert(numbers(all.dcr@) =~= none.map_values(|r: RowInfo| r.dcr));
            assert(numbers(all.lin@) =~= none.map_values(|r: RowInfo| r.lin));
            assert(numbers(all.lo@) =~= none.map_values(|r: RowInfo| r.lo));
            assert(numbers(all.hi@) =~= none.map_values(|r: RowInfo| r.hi));
        }
        for i in 0..enc.opcode.len()
            invariant
                e == enc@,
                encoding_ready(e),
                all.holds(cons_rows(e, i as int)),
        {
            proof {
                lemma_ready(e, i as int);
                assert(e.out[i as int] == enc.out[i as int]);
                assert(e.cr[i as int] == enc.cr[i as int]);
            }
            let ops = enc.operands(i);
            let d = ProgramEncoding::deltas(enc.opcode[i], ops.as_slice());
            let n: usize = d.cr;
            let lin: i64 = match enc.opcode[i] {
                Opcode::MatMult => 1,
                Opcode::Conv => 1,
                _ => 0,
            };
            let ghost before = cons_rows(e, i as int);
            let ghost part = |r: int| cons_row(e, i as int, r);
            assert(before =~= before + Seq::new(0, part));
            for r in 0..n
                invariant
                    e == enc@,
                    encoding_ready(e),
                    i < e.opcode.len(),
                    n == delta_at(e, i as int).cr,
                    n <= size_limit(),
                    lin == is_linear(e.opcode[i as int]),
                    enc.out[i as int] == e.out[i as int],
                    enc.cr[i as int] == e.cr[i as int],
                    i < enc.out.len(),
                    i < enc.cr.len(),
                    enc.out[i as int] <= size_limit(),
                    enc.cr[i as int] <= size_limit(),
                    part == (|r: int| cons_row(e, i as int, r)),
                    all.holds(before + Seq::new(r as nat, part)),
            {
                let ghost cur = before + Seq::new(r as nat, part);
                all.push(
                    enc.out[i] as i64,
                    i as i64,
                    enc.cr[i] as i64,
                    n as i64,
                    lin,
                    r as i64,
                    (n - 1 - r) as i64,
                );
                proof {
                    assert(cons_row(e, i as int, r as int) == part(r as int));
                    assert(cur.push(cons_row(e, i as int, r as int)) =~= before + Seq::new(
                        (r + 1) as nat,
                        part,
                    ));
                }
            }
            assert(cons_rows(e, i + 1) =~= before + Seq::new(n as nat, part));
        }
        all
    }
}

/// What is known of the lookup rows: where their instruction writes, and whether it
/// is a lookup.
pub fn lookup_columns(enc: &ProgramEncoding) -> (out: (Vec<i64>, Vec<i64>))
    requires
        encoding_ready(enc@),
    ensures
        numbers(out.0@) == lu_rows(enc@, enc@.opcode.len() as int).map_values(
            |r: (int, int)| r.0,
        ),
        numbers(out.1@) == lu_rows(enc@, enc@.opcode.len() as int).map_values(
            |r: (int, int)| r.1,
        ),
{
    let ghost e = enc@;
    let mut a: Vec<i64> = Vec::new();
    let mut b: Vec<i64> = Vec::new();
    assert(numbers(a@) =~= lu_rows(e, 0).map_values(|r: (int, int)| r.0));
    assert(numbers(b@) =~= lu_rows(e, 0).map_values(|r: (int, int)| r.1));
    for i in 0..enc.opcode.len()
        invariant
            e == enc@,
            encoding_ready(e),
            numbers(a@) == lu_rows(e, i as int).map_values(|r: (int, int)| r.0),
            numbers(b@) == lu_rows(e, i as int).map_values(|r: (int, int)| r.1),
    {
        proof {
            lemma_ready(e, i as int);
            assert(e.out[i as int] == enc.out[i as int]);
        }
        let ops = enc.operands(i);
        let d = ProgramEncoding::deltas(enc.opcode[i], ops.as_slice());
        let n: usize = d.lr;
        let flag: i64 = match enc.opcode[i] {
            Opcode::Lookup => 1,
            _ => 0,
        };
        let ghost before = lu_rows(e, i as int);
        let ghost part = |r: int| lu_row(e, i as int);
        assert(before =~= before + Seq::new(0, part));
        for r in 0..n
            invariant
                e == enc@,
                i < e.opcode.len(),
                flag == lu_row(e, i as int).1,
                enc.out[i as int] == lu_row(e, i as int).0,
                i < enc.out.len(),
                enc.out[i as int] <= size_limit(),
                part == (|r: int| lu_row(e, i as int)),
                numbers(a@) == (before + Seq::new(r as nat, part)).map_values(
                    |r: (int, int)| r.0,
                ),
                numbers(b@) == (before + Seq::new(r as nat, part)).map_values(
                    |r: (int, int)| r.1,
                ),
        {
            let ghost cur = before + Seq::new(r as nat, part);
            let ghost next = before + Seq::new((r + 1) as nat, part);
            let ghost av = numbers(a@);
            let ghost bv = numbers(b@);
            a.push(enc.out[i] as i64);
            b.push(flag);
            proof {
                assert(part(r as int) == lu_row(e, i as int));
                assert(next =~= cur.push(lu_row(e, i as int)));
                assert(numbers(a@) =~= av.push(lu_row(e, i as int).0));
                assert(numbers(b@) =~= bv.push(lu_row(e, i as int).1));
                assert(numbers(a@) =~= next.map_values(|r: (int, int)| r.0));
                assert(numbers(b@) =~= next.map_values(|r: (int, int)| r.1));
            }
        }
        assert(lu_rows(e, i + 1) =~= before + Seq::new(n as nat, part));
    }
    (a, b)
}

/// An entry of a family.
pub struct ExpansionRow {
    pub ptr: i64,
    pub base: i64,
    pub cr: i64,
    pub out: i64,
    pub aux: i64,
    pub ops: Vec<i64>,
    pub digits: Vec<i64>,
    pub slacks: Vec<i64>,
    pub pow: Fr,
}

impl View for ExpansionRow {
    type V = XRow;

    open spec fn view(&self) -> XRow {
        XRow {
            ptr: self.ptr as int,
            base: self.base as int,
            cr: self.cr as int,
            out: self.out as int,
            aux: self.aux as int,
            ops: numbers(self.ops@),
            digits: numbers(self.digits@),
            slacks: numbers(self.slacks@),
            pow: self.pow@,
        }
    }
}

/// The views of some entries.
pub open spec fn row_views(v: Seq<ExpansionRow>) -> Seq<XRow> {
    v.map_values(|r: ExpansionRow| r@)
}

fn coordinates_exec(sides: &Vec<u64>, n: usize, t: u64) -> (out: Vec<u64>)
    requires
        n <= sides.len(),
        forall|j: int| 0 <= j < n ==> 1 <= (#[trigger] sides[j]),
    ensures
        out.len() == n,
        forall|j: int|
            0 <= j < n ==> (#[trigger] out[j]) as int == coordinates(
                Seq::new(n as nat, |j: int| sides[j] as int),
                t as int,
            )[j],
        coordinates(Seq::new(n as nat, |j: int| sides[j] as int), t as int).len() == n,
        forall|j: int| 0 <= j < n ==> (#[trigger] out[j]) < sides[j],
    decreases n,
{
    let ghost s = Seq::new(n as nat, |j: int| sides[j] as int);
    if n == 0 {
        Vec::new()
    } else {
        let last: u64 = sides[n - 1];
        let mut out = coordinates_exec(sides, n - 1, t / last);
        assert(s.drop_last() =~= Seq::new((n - 1) as nat, |j: int| sides[j] as int));
        out.push(t % last);
        out
    }
}

/// A grid with points has no side of zero.
pub proof fn lemma_sides(f: FamilyView, o: Seq<int>, n: int)
    requires
        family_fits(f, o),
        0 <= n <= f.radices.len(),
        grid_size(f, o, n) > 0,
    ensures
        forall|j: int| 0 <= j < n ==> ex_value(#[trigger] f.radices[j], o) >= 1,
    decreases n,
{
    if n > 0 {
        let a = grid_size(f, o, n - 1);
        let b = ex_value(f.radices[n - 1], o);
        assert(grid_size(f, o, n - 1) >= 0);
        assert(ex_fits(f.radices[n - 1], o));
        assert(a > 0 && b > 0) by (nonlinear_arith)
            requires
                a * b > 0,
                a >= 0,
                b >= 0,
        ;
        lemma_sides(f, o, n - 1);
    }
}

fn expansion_row(
    enc: &ProgramEncoding,
    family: &Family,
    ops: &Vec<i64>,
    field_ops: &Vec<Fr>,
    sides: &Vec<u64>,
    i: usize,
    base: usize,
    t: usize,
    Ghost(f): Ghost<int>,
) -> (out: ExpansionRow)
    requires
        encoding_ready(enc@),
        0 <= f < NUM_FAMILIES,
        family@ == families_of()[f],
        family_wf(family@),
        i < enc@.opcode.len(),
        family@.opcode == enc@.opcode[i as int],
        numbers(ops@) == operands_of(enc@, i as int),
        values(field_ops@) == operands_of(enc@, i as int),
        sides.len() == family@.radices.len(),
        forall|j: int|
            0 <= j < sides.len() ==> 1 <= (#[trigger] sides[j]) <= i64::MAX && sides[j] == ex_value(
                family@.radices[j],
                operands_of(enc@, i as int),
            ),
        base == share_sum(enc@, family@, i as int),
        base <= size_limit(),
        t <= size_limit(),
    ensures
        out@ == x_row(enc@, family@, i as int, t as int),
{
    let ghost e = enc@;
    let ghost o = operands_of(e, i as int);
    let ghost fv = family@;
    let ghost want = x_row(e, fv, i as int, t as int);
    proof {
        lemma_ready(e, i as int);
        assert(e.out[i as int] == enc.out[i as int]);
        assert(e.aux[i as int] == enc.aux[i as int]);
        assert(e.cr[i as int] == enc.cr[i as int]);
    }
    let n: usize = sides.len();
    let d = coordinates_exec(sides, n, t as u64);
    let ghost sv = sides_of(fv, o);
    assert(sv =~= Seq::new(n as nat, |j: int| sides[j] as int));
    let ghost dv = coordinates(sv, t as int);
    let mut digits: Vec<i64> = Vec::new();
    let mut slacks: Vec<i64> = Vec::new();
    for j in 0..MAX_DIGITS
        invariant
            n == sides.len(),
            n == d.len(),
            n == sv.len(),
            forall|j: int| 0 <= j < n ==> (#[trigger] d[j]) as int == dv[j],
            forall|j: int| 0 <= j < n ==> (#[trigger] d[j]) < sides[j],
            forall|j: int| 0 <= j < n ==> 1 <= (#[trigger] sides[j]) <= i64::MAX,
            forall|j: int| 0 <= j < n ==> (#[trigger] sides[j]) as int == sv[j],
            digits.len() == j,
            slacks.len() == j,
            forall|l: int|
                0 <= l < j ==> (#[trigger] digits[l]) as int == (if l < n {
                    dv[l]
                } else {
                    0
                }),
            forall|l: int|
                0 <= l < j ==> (#[trigger] slacks[l]) as int == (if l < n {
                    sv[l] - 1 - dv[l]
                } else {
                    0
                }),
    {
        if j < n {
            assert(d[j as int] < sides[j as int]);
            assert(sides[j as int] <= i64::MAX);
            digits.push(d[j] as i64);
            slacks.push((sides[j] - 1 - d[j]) as i64);
        } else {
            digits.push(0);
            slacks.push(0);
        }
    }
    assert(values(field_ops@).len() == field_ops.len());
    let mut pow = family.pow_const.eval(field_ops);
    for k in 0..family.pow.len()
        invariant
            fv == family@,
            family_wf(fv),
            o == values(field_ops@),
            field_ops.len() == NUM_OPERANDS,
            n == d.len(),
            n == fv.radices.len(),
            forall|j: int| 0 <= j < n ==> (#[trigger] d[j]) as int == dv[j],
            pow@ == power_of(fv, o, dv, t as int, k as int),
    {
        let ghost term = fv.pow[k as int];
        assert(ex_reads(term.0, NUM_OPERANDS as nat));
        let value = match family.pow[k].1 {
            PowTerm::Digit(j) => Fr::from_u64(d[j]),
            PowTerm::Flat => Fr::from_usize(t),
        };
        pow = pow + family.pow[k].0.eval(field_ops) * value;
    }
    let out = ExpansionRow {
        ptr: i as i64,
        base: base as i64,
        cr: enc.cr[i] as i64,
        out: enc.out[i] as i64,
        aux: enc.aux[i] as i64,
        ops: copied_numbers(ops),
        digits,
        slacks,
        pow,
    };
    assert(out@.digits =~= want.digits);
    assert(out@.slacks =~= want.slacks);
    assert(out@.ops =~= want.ops);
    out
}

/// A copy of a vector of numbers.
pub fn copied_numbers(v: &Vec<i64>) -> (out: Vec<i64>)
    ensures
        out@ == v@,
{
    let mut out: Vec<i64> = Vec::new();
    for i in 0..v.len()
        invariant
            out@ == v@.take(i as int),
    {
        out.push(v[i]);
        assert(out@ =~= v@.take(i + 1));
    }
    assert(v@.take(v.len() as int) =~= v@);
    out
}

fn sides_exec(family: &Family, ops: &Vec<i64>) -> (out: Vec<u64>)
    requires
        family_fits(family@, numbers(ops@)),
    ensures
        out.len() == family@.radices.len(),
        forall|j: int|
            0 <= j < out.len() ==> (#[trigger] out[j]) <= i64::MAX && out[j] == ex_value(
                family@.radices[j],
                numbers(ops@),
            ),
{
    let mut out: Vec<u64> = Vec::new();
    for j in 0..family.radices.len()
        invariant
            family_fits(family@, numbers(ops@)),
            out.len() == j,
            forall|l: int|
                0 <= l < j ==> (#[trigger] out[l]) <= i64::MAX && out[l] == ex_value(
                    family@.radices[l],
                    numbers(ops@),
                ),
    {
        assert(ex_fits(family@.radices[j as int], numbers(ops@)));
        out.push(family.radices[j].eval_i64(ops.as_slice()) as u64);
    }
    out
}

/// The entries of all the families of a program.
#[verifier::rlimit(40)]
pub fn expansion(enc: &ProgramEncoding) -> (out: Vec<ExpansionRow>)
    requires
        encoding_ready(enc@),
    ensures
        row_views(out@) == x_rows(enc@, NUM_FAMILIES as int),
{
    let ghost e = enc@;
    let ghost q = e.opcode.len() as int;
    let fams = families();
    let mut out: Vec<ExpansionRow> = Vec::new();
    assert(row_views(out@) =~= x_rows(e, 0));
    for f in 0..NUM_FAMILIES
        invariant
            e == enc@,
            q == e.opcode.len(),
            encoding_ready(e),
            fams.len() == NUM_FAMILIES,
            family_views(fams@) == families_of(),
            row_views(out@) == x_rows(e, f as int),
    {
        let family = &fams[f];
        proof {
            lemma_families();
            assert(family_views(fams@)[f as int] == fams[f as int]@);
        }
        let ghost fv = family@;
        let ghost before = x_rows(e, f as int);
        assert(before =~= before + family_rows(e, fv, 0));
        let mut base: usize = 0;
        for i in 0..enc.opcode.len()
            invariant
                e == enc@,
                q == e.opcode.len(),
                encoding_ready(e),
                f < NUM_FAMILIES,
                fv == family@,
                fv == families_of()[f as int],
                family_wf(fv),
                base == share_sum(e, fv, i as int),
                row_views(out@) == before + family_rows(e, fv, i as int),
        {
            proof {
                lemma_share_sum(e, f as int, i as int, i + 1);
                assert(instr_families_fit(e, i as int));
            }
            let ghost sofar = before + family_rows(e, fv, i as int);
            let ghost part = |t: int| x_row(e, fv, i as int, t);
            if family.opcode == enc.opcode[i] {
                proof {
                    lemma_ready(e, i as int);
                }
                let ops = enc.operands_i64(i);
                let n: usize = family.size(ops.as_slice());
                let field_ops = to_poly(&ops).0;
                let sides = sides_exec(family, &ops);
                assert(sofar =~= sofar + Seq::new(0, part));
                for t in 0..n
                    invariant
                        e == enc@,
                        encoding_ready(e),
                        f < NUM_FAMILIES,
                        fv == family@,
                        fv == families_of()[f as int],
                        family_wf(fv),
                        i < e.opcode.len(),
                        fv.opcode == e.opcode[i as int],
                        family_fits(fv, operands_of(e, i as int)),
                        n == share(e, fv, i as int),
                        n <= size_limit(),
                        numbers(ops@) == operands_of(e, i as int),
                        values(field_ops@) == operands_of(e, i as int),
                        sides.len() == fv.radices.len(),
                        forall|j: int|
                            0 <= j < sides.len() ==> (#[trigger] sides[j]) <= i64::MAX && sides[j]
                                == ex_value(fv.radices[j], operands_of(e, i as int)),
                        base == share_sum(e, fv, i as int),
                        base <= size_limit(),
                        part == (|t: int| x_row(e, fv, i as int, t)),
                        row_views(out@) == sofar + Seq::new(t as nat, part),
                {
                    proof {
                        lemma_sides(fv, operands_of(e, i as int), fv.radices.len() as int);
                        assert forall|j: int| 0 <= j < sides.len() implies 1 <= (
                        #[trigger] sides[j]) <= i64::MAX && sides[j] == ex_value(
                            fv.radices[j],
                            operands_of(e, i as int),
                        ) by {
                            assert(ex_value(fv.radices[j], operands_of(e, i as int)) >= 1);
                        }
                    }
                    let ghost cur = row_views(out@);
                    let row = expansion_row(
                        enc,
                        family,
                        &ops,
                        &field_ops,
                        &sides,
                        i,
                        base,
                        t,
                        Ghost(f as int),
                    );
                    out.push(row);
                    proof {
                        assert(part(t as int) == row@);
                        assert(row_views(out@) =~= cur.push(row@));
                        assert(row_views(out@) =~= sofar + Seq::new((t + 1) as nat, part));
                    }
                }
                base = base + n;
            } else {
                assert(share(e, fv, i as int) == 0);
                assert(sofar =~= sofar + Seq::new(0, part));
            }
            assert(before + family_rows(e, fv, i + 1) =~= sofar + Seq::new(
                share(e, fv, i as int) as nat,
                part,
            ));
        }
    }
    out
}

/// The rows of the entries on the suffix columns are rows of their matrices.
pub proof fn lemma_entry_rows(c: CircuitView)
    requires
        circuit_fits(c, 1),
    ensures
        ({
            let g = suffix_group(c);
            let flag = pow2((g.log_row - 1) as nat) as int;
            let lens = suffix_lens(c);
            &&& 0 <= cumulated(lens, 1) <= cumulated(lens, 2) <= cumulated(lens, 3) <= cumulated(
                lens,
                4,
            ) <= cumulated(lens, 5) <= g.row.len()
            &&& forall|t: int|
                0 <= t < cumulated(lens, 3) ==> 0 <= #[trigger] g.row[t] < c.a.len()
            &&& forall|t: int|
                cumulated(lens, 3) <= t < cumulated(lens, 4) ==> flag <= #[trigger] g.row[t] < flag
                    + c.d.len()
            &&& forall|t: int|
                0 <= t < cumulated(lens, 5) ==> 0 <= #[trigger] g.col[t] < c.z_len - c.weight_len
        }),
{
    reveal(suffix_group);
    reveal_with_fuel(cumulated, 6);
    let wl = c.weight_len;
    let top = usize::MAX as int;
    let pows = crate::sparse::circuit_max_pow(c) + 1;
    lemma_suffix_group(c, 1);
    lemma_quads(c.a, wl, top, c.a.len() as int, c.z_len, pows);
    lemma_quads(c.b, wl, top, c.b.len() as int, c.z_len, pows);
    lemma_quads(c.c, wl, top, c.c.len() as int, c.z_len, pows);
    lemma_quads(c.d, wl, top, c.d.len() as int, c.z_len, pows);
    lemma_quads(c.e, wl, top, c.e.len() as int, c.z_len, pows);
    let g = suffix_group(c);
    let q = all_suffix_quads(c);
    let lens = suffix_lens(c);
    let flag = pow2(row_base_log(c)) as int;
    assert(q.len() == cumulated(lens, 5));
    if q.len() > 0 {
        assert(not_empty(q) == q);
        assert forall|t: int| 0 <= t < cumulated(lens, 3) implies 0 <= #[trigger] g.row[t]
            < c.a.len() by {
            let n1 = cumulated(lens, 1);
            let n2 = cumulated(lens, 2);
            if t < n1 {
                assert(q[t] == moved(suffix_quads(c, c.a), 0)[t]);
            } else if t < n2 {
                assert(q[t] == moved(suffix_quads(c, c.b), 0)[t - n1]);
            } else {
                assert(q[t] == moved(suffix_quads(c, c.c), 0)[t - n2]);
            }
        }
        assert forall|t: int| cumulated(lens, 3) <= t < cumulated(lens, 4) implies flag
            <= #[trigger] g.row[t] < flag + c.d.len() by {
            assert(q[t] == moved(suffix_quads(c, c.d), flag)[t - cumulated(lens, 3)]);
        }
        assert forall|t: int| 0 <= t < cumulated(lens, 5) implies 0 <= #[trigger] g.col[t]
            < c.z_len - c.weight_len by {
            let n1 = cumulated(lens, 1);
            let n2 = cumulated(lens, 2);
            let n3 = cumulated(lens, 3);
            let n4 = cumulated(lens, 4);
            if t < n1 {
                assert(q[t] == moved(suffix_quads(c, c.a), 0)[t]);
            } else if t < n2 {
                assert(q[t] == moved(suffix_quads(c, c.b), 0)[t - n1]);
            } else if t < n3 {
                assert(q[t] == moved(suffix_quads(c, c.c), 0)[t - n2]);
            } else if t < n4 {
                assert(q[t] == moved(suffix_quads(c, c.d), flag)[t - n3]);
            } else {
                assert(q[t] == moved(suffix_quads(c, c.e), flag)[t - n4]);
            }
        }
    }
}

} // verus!
