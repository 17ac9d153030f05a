//! The sizes that a registered program publishes, and the vectors that its
//! registration commits to.
use vstd::prelude::*;
use vstd::arithmetic::power2::*;
use crate::circuit::{Circuit, CircuitView};
use crate::field::{Fr, values};
use crate::kzg::{Mkzg, MkzgCommit, MkzgProveParams, commit_of};
use crate::poly::MlPoly;
use crate::preprocess::{KeyView, VerifierKey};
use crate::registration::args::{filled_to, pad_len, pad_to};
use crate::registration::columns::{
    ConsColumns, ExpansionRow, encoding_ready, expansion, lemma_entry_rows, lemma_ready,
    lemma_rows_len, lemma_x_rows_len, lookup_columns, padded, row_views, signed_words, to_poly,
};
use crate::registration::encode::{
    DeltaView, EncodingView, NUM_OPCODES, NUM_OPERANDS, Opcode, ProgramEncoding, counted, delta_at,
    encoding_fits, numbers, operands_of, shaped, words,
};
use crate::registration::family::{
    FamilyView, MAX_DIGITS, NUM_FAMILIES, PowTerm, ex_value, families, families_of, family_fits,
    family_size, family_views,
};
use crate::registration::relation::Tab;
use crate::sparse::{
    below, circuit_fits, count_exec, counts, cumulated, indices, prefix_group, size_limit,
    sparse_polys, suffix_group, suffix_lens,
};
use crate::sumcheck::{lemma_log2_ceil, log2_ceil, log2_ceil_exec};
use crate::sums::{lemma_pow2_mono, two_pow};

verus! {

/// The number of the counter of the output cells.
pub const CTR_OUT: usize = 0;

/// The number of the counter of the advice cells.
pub const CTR_AUX: usize = 1;

/// The number of the counter of the constraint rows.
pub const CTR_CR: usize = 2;

/// The number of the counter of the lookup rows.
pub const CTR_LR: usize = 3;

/// The number of counters.
pub const NUM_COUNTERS: usize = 4;

/// The integers of a profile.
pub ghost struct ProfileView {
    pub weight_len: int,
    pub input_len: int,
    pub aux_start: int,
    pub z_len: int,
    pub cons_line: int,
    pub lu_line: int,
    pub instr_count: int,
    pub matrix_lens: Seq<int>,
    pub entry_len: int,
    pub b_pre_len: int,
    pub row_flag: int,
    pub log_range: int,
    pub family_lens: Seq<int>,
    pub x_len: int,
}

/// The sizes of a registered program: all that is known of its shape.
#[derive(Clone, Debug, PartialEq, Eq)]
pub struct RegistrationProfile {
    pub weight_len: usize,
    pub input_len: usize,
    pub aux_start: usize,
    pub z_len: usize,
    pub cons_line: usize,
    pub lu_line: usize,
    pub instr_count: usize,
    /// The number of entries of each matrix on the suffix columns.
    pub matrix_lens: Vec<usize>,
    pub entry_len: usize,
    pub b_pre_len: usize,
    /// What is added to the rows of the lookup matrices.
    pub row_flag: usize,
    /// The logarithm of the bound on what is left between a read and its limit.
    pub log_range: usize,
    /// The number of entries of each family.
    pub family_lens: Vec<usize>,
    /// The number of entries of all the families.
    pub x_len: usize,
}

impl View for RegistrationProfile {
    type V = ProfileView;

    open spec fn view(&self) -> ProfileView {
        ProfileView {
            weight_len: self.weight_len as int,
            input_len: self.input_len as int,
            aux_start: self.aux_start as int,
            z_len: self.z_len as int,
            cons_line: self.cons_line as int,
            lu_line: self.lu_line as int,
            instr_count: self.instr_count as int,
            matrix_lens: words(self.matrix_lens@),
            entry_len: self.entry_len as int,
            b_pre_len: self.b_pre_len as int,
            row_flag: self.row_flag as int,
            log_range: self.log_range as int,
            family_lens: words(self.family_lens@),
            x_len: self.x_len as int,
        }
    }
}

/// The number of entries that instruction `i` has in a family.
pub open spec fn share(e: EncodingView, f: FamilyView, i: int) -> int {
    if f.opcode == e.opcode[i] {
        family_size(f, operands_of(e, i))
    } else {
        0
    }
}

/// The number of entries that the first `n` instructions have in a family.
pub open spec fn share_sum(e: EncodingView, f: FamilyView, n: int) -> int
    decreases n,
{
    if n <= 0 {
        0
    } else {
        share_sum(e, f, n - 1) + share(e, f, n - 1)
    }
}

/// The number of entries of each family.
pub open spec fn family_lens_of(e: EncodingView) -> Seq<int> {
    families_of().map_values(|f: FamilyView| share_sum(e, f, e.opcode.len() as int))
}

/// The grids of the families of an instruction are words.
pub open spec fn instr_families_fit(e: EncodingView, i: int) -> bool {
    forall|f: int|
        0 <= f < NUM_FAMILIES && (#[trigger] families_of()[f]).opcode == e.opcode[i]
            ==> family_fits(families_of()[f], operands_of(e, i))
}

/// The grids of the families of all instructions are words, and all the entries
/// together fit in memory.
pub open spec fn families_fit(e: EncodingView) -> bool {
    &&& forall|i: int| 0 <= i < e.opcode.len() ==> #[trigger] instr_families_fit(e, i)
    &&& cumulated(family_lens_of(e), NUM_FAMILIES as int) <= size_limit()
}

/// The profile of a program, for commitments with the given sizes.
pub open spec fn profile_of(
    e: EncodingView,
    matrix_lens: Seq<int>,
    entry_len: int,
    b_pre_len: int,
    log_row: nat,
) -> ProfileView {
    let lens = family_lens_of(e);
    ProfileView {
        weight_len: e.weight_len,
        input_len: e.input_len,
        aux_start: e.aux_start,
        z_len: e.z_len,
        cons_line: e.cons_line,
        lu_line: e.lu_line,
        instr_count: e.opcode.len() as int,
        matrix_lens,
        entry_len,
        b_pre_len,
        row_flag: pow2((log_row - 1) as nat) as int,
        log_range: log2_ceil(e.z_len + 2) as int,
        family_lens: lens,
        x_len: cumulated(lens, NUM_FAMILIES as int),
    }
}

/// The profile of a program, for the commitments of a key.
pub open spec fn key_profile(k: KeyView, e: EncodingView) -> ProfileView {
    profile_of(e, k.lens, k.entry_len, k.b_pre_len, k.sup.log_row)
}

/// The sizes of a profile fit in memory.
pub open spec fn profile_fits(p: ProfileView) -> bool {
    &&& p.matrix_lens.len() == 5
    &&& p.family_lens.len() == NUM_FAMILIES
    &&& forall|i: int| 0 <= i < 5 ==> 0 <= #[trigger] p.matrix_lens[i]
    &&& forall|i: int| 0 <= i < NUM_FAMILIES ==> 0 <= #[trigger] p.family_lens[i]
    &&& cumulated(p.matrix_lens, 5) <= size_limit()
    &&& cumulated(p.family_lens, NUM_FAMILIES as int) <= size_limit()
    &&& 0 <= p.weight_len <= size_limit()
    &&& 0 <= p.input_len <= size_limit()
    &&& 0 <= p.aux_start
    &&& 0 <= p.z_len
    &&& 0 <= p.instr_count < size_limit()
    &&& 0 <= p.cons_line <= size_limit()
    &&& 0 <= p.lu_line <= size_limit()
    &&& 0 <= p.entry_len <= size_limit()
    &&& 0 <= p.b_pre_len <= size_limit()
    &&& 0 <= p.x_len <= size_limit()
    &&& 0 <= p.row_flag <= 2 * size_limit()
    &&& 0 <= p.log_range
}

/// The sums of the first lengths grow.
pub proof fn lemma_cumulated(lens: Seq<int>, n: int, m: int)
    requires
        0 <= n <= m <= lens.len(),
        forall|i: int| 0 <= i < m ==> 0 <= #[trigger] lens[i],
    ensures
        0 <= cumulated(lens, n) <= cumulated(lens, m),
    decreases m,
{
    if m > 0 {
        if n < m {
            lemma_cumulated(lens, n, m - 1);
        } else {
            lemma_cumulated(lens, m - 1, m - 1);
        }
        assert(lens[m - 1] >= 0);
    }
}

/// The shares of the first instructions grow.
pub proof fn lemma_share_sum(e: EncodingView, f: int, n: int, m: int)
    requires
        families_fit(e),
        0 <= f < NUM_FAMILIES,
        0 <= n <= m <= e.opcode.len(),
    ensures
        0 <= share_sum(e, families_of()[f], n) <= share_sum(e, families_of()[f], m),
        0 <= share_sum(e, families_of()[f], m) <= size_limit(),
    decreases m,
{
    lemma_share_sum_grows(e, f, n, m);
    let q = e.opcode.len() as int;
    let lens = family_lens_of(e);
    assert forall|i: int| 0 <= i < NUM_FAMILIES implies 0 <= #[trigger] lens[i] by {
        lemma_share_sum_grows(e, i, 0, q);
    }
    lemma_share_sum_grows(e, f, m, q);
    lemma_cumulated(lens, f, f + 1);
    lemma_cumulated(lens, f + 1, NUM_FAMILIES as int);
    assert(lens[f] == share_sum(e, families_of()[f], q));
}

/// The shares of the first instructions grow.
pub proof fn lemma_share_sum_grows(e: EncodingView, f: int, n: int, m: int)
    requires
        forall|i: int| 0 <= i < e.opcode.len() ==> #[trigger] instr_families_fit(e, i),
        0 <= f < NUM_FAMILIES,
        0 <= n <= m <= e.opcode.len(),
    ensures
        0 <= share_sum(e, families_of()[f], n) <= share_sum(e, families_of()[f], m),
    decreases m,
{
    if m > 0 {
        let fam = families_of()[f];
        assert(instr_families_fit(e, m - 1));
        assert(share(e, fam, m - 1) >= 0);
        if n < m {
            lemma_share_sum_grows(e, f, n, m - 1);
        } else {
            lemma_share_sum_grows(e, f, m - 1, m - 1);
        }
    }
}

/// The sum of the first lengths.
pub fn sum_first(lens: &Vec<usize>, n: usize) -> (out: usize)
    requires
        n <= lens.len(),
        cumulated(words(lens@), lens.len() as int) <= usize::MAX,
    ensures
        out == cumulated(words(lens@), n as int),
{
    let ghost w = words(lens@);
    let mut out: usize = 0;
    proof {
        lemma_cumulated(w, 0, 0);
    }
    for i in 0..n
        invariant
            n <= lens.len(),
            w == words(lens@),
            cumulated(w, lens.len() as int) <= usize::MAX,
            out == cumulated(w, i as int),
    {
        proof {
            lemma_cumulated(w, i + 1, lens.len() as int);
        }
        out = out + lens[i];
    }
    out
}

impl RegistrationProfile {
    /// The profile of a program, for the commitments of a key.
    pub fn new(vk: &VerifierKey, enc: &ProgramEncoding) -> (out: RegistrationProfile)
        requires
            vk.complete(),
            1 <= vk.sparse_commits.supergroups[0].log_row,
            pow2(vk.sparse_commits.supergroups[0].log_row as nat) <= usize::MAX,
            encoding_fits(enc@),
            enc@.z_len + 2 <= usize::MAX,
            families_fit(enc@),
        ensures
            out@ == key_profile(vk@, enc@),
    {
        let ghost e = enc@;
        let ghost q = e.opcode.len() as int;
        let ghost want = family_lens_of(e);
        let fams = families();
        let ghost fv = families_of();
        assert(fv.len() == NUM_FAMILIES);
        let mut family_lens: Vec<usize> = Vec::new();
        for f in 0..NUM_FAMILIES
            invariant
                e == enc@,
                q == e.opcode.len(),
                fv == families_of(),
                want == family_lens_of(e),
                fams.len() == NUM_FAMILIES,
                family_views(fams@) == fv,
                encoding_fits(e),
                families_fit(e),
                family_lens.len() == f,
                forall|g: int| 0 <= g < f ==> (#[trigger] family_lens[g]) as int == want[g],
        {
            assert(family_views(fams@)[f as int] == fams[f as int]@);
            let mut len: usize = 0;
            for i in 0..enc.opcode.len()
                invariant
                    e == enc@,
                    q == e.opcode.len(),
                    fv == families_of(),
                    f < NUM_FAMILIES,
                    fams.len() == NUM_FAMILIES,
                    fams[f as int]@ == fv[f as int],
                    encoding_fits(e),
                    families_fit(e),
                    len == share_sum(e, fv[f as int], i as int),
            {
                proof {
                    assert(instr_families_fit(e, i as int));
                    lemma_share_sum(e, f as int, i as int, i + 1);
                }
                if fams[f].opcode == enc.opcode[i] {
                    let ops = enc.operands_i64(i);
                    len = len + fams[f].size(ops.as_slice());
                }
            }
            family_lens.push(len);
        }
        assert(words(family_lens@) =~= want);
        let sup = &vk.sparse_commits.supergroups[0];
        proof {
            lemma_pow2_mono(
                (sup.log_row - 1) as nat,
                sup.log_row as nat,
            );
        }
        let x_len: usize = sum_first(&family_lens, NUM_FAMILIES);
        let matrix_lens = copied_words(&sup.matrix_lens);
        RegistrationProfile {
            weight_len: enc.weight_len,
            input_len: enc.input_len,
            aux_start: enc.aux_start,
            z_len: enc.z_len,
            cons_line: enc.cons_line,
            lu_line: enc.lu_line,
            instr_count: enc.len(),
            matrix_lens,
            entry_len: sup.len,
            b_pre_len: vk.sparse_commits.b_pre.len,
            row_flag: two_pow(sup.log_row - 1),
            log_range: log2_ceil_exec(enc.z_len + 2),
            family_lens,
            x_len,
        }
    }

    /// The places of family `f` among all the entries.
    pub fn family_range(&self, f: usize) -> (out: (usize, usize))
        requires
            f < self@.family_lens.len(),
            cumulated(self@.family_lens, self@.family_lens.len() as int) <= usize::MAX,
        ensures
            out.0 == cumulated(self@.family_lens, f as int),
            out.1 == cumulated(self@.family_lens, f + 1),
    {
        assert(f < self.family_lens.len());
        (sum_first(&self.family_lens, f), sum_first(&self.family_lens, f + 1))
    }

    /// The places of matrix `m` among the entries on the suffix columns.
    pub fn segment(&self, m: usize) -> (out: (usize, usize))
        requires
            m < self@.matrix_lens.len(),
            cumulated(self@.matrix_lens, self@.matrix_lens.len() as int) <= usize::MAX,
        ensures
            out.0 == cumulated(self@.matrix_lens, m as int),
            out.1 == cumulated(self@.matrix_lens, m + 1),
    {
        assert(m < self.matrix_lens.len());
        (sum_first(&self.matrix_lens, m), sum_first(&self.matrix_lens, m + 1))
    }

    /// The number of variables for the entries of the families.
    pub fn log_x(&self) -> (out: usize)
        ensures
            out == log2_ceil(self@.x_len),
    {
        log2_ceil_exec(self.x_len)
    }

    /// The number of variables for the instructions and a place after them, at which the
    /// counters end.
    pub fn log_instr(&self) -> (out: usize)
        ensures
            out == log2_ceil(self@.instr_count + 1),
    {
        if self.instr_count < 2 {
            1
        } else {
            1 + log2_ceil_exec(self.instr_count / 2 + 1)
        }
    }

    /// The number of variables for the constraint rows.
    pub fn log_cons(&self) -> (out: usize)
        ensures
            out == log2_ceil(self@.cons_line),
    {
        log2_ceil_exec(self.cons_line)
    }

    /// The number of variables for the lookup rows.
    pub fn log_lu(&self) -> (out: usize)
        ensures
            out == log2_ceil(self@.lu_line),
    {
        log2_ceil_exec(self.lu_line)
    }

    /// The number of variables for the entries on the suffix columns.
    pub fn log_entry(&self) -> (out: usize)
        ensures
            out == log2_ceil(self@.entry_len),
    {
        log2_ceil_exec(self.entry_len)
    }

    /// The number of variables for the entries on the prefix columns.
    pub fn log_b_pre(&self) -> (out: usize)
        ensures
            out == log2_ceil(self@.b_pre_len),
    {
        log2_ceil_exec(self.b_pre_len)
    }

    /// The greatest number of variables of all.
    pub fn log_srs(&self) -> (out: usize)
        ensures
            out == log_srs_of(self@),
    {
        let a: usize = larger(self.log_instr(), self.log_cons());
        let b: usize = larger(a, self.log_lu());
        let c: usize = larger(b, self.log_entry());
        let d: usize = larger(c, self.log_b_pre());
        let e: usize = larger(d, self.log_x());
        larger(e, self.log_range)
    }
}

/// The larger of two numbers.
pub open spec fn max_of(a: int, b: int) -> int {
    if a >= b {
        a
    } else {
        b
    }
}

fn larger(a: usize, b: usize) -> (out: usize)
    ensures
        out == max_of(a as int, b as int),
{
    if a >= b {
        a
    } else {
        b
    }
}

/// The greatest number of variables that a registration with the given profile
/// speaks of.
pub open spec fn log_srs_of(p: ProfileView) -> int {
    let a = max_of(log2_ceil(p.instr_count + 1) as int, log2_ceil(p.cons_line) as int);
    let b = max_of(a, log2_ceil(p.lu_line) as int);
    let c = max_of(b, log2_ceil(p.entry_len) as int);
    let d = max_of(c, log2_ceil(p.b_pre_len) as int);
    let e = max_of(d, log2_ceil(p.x_len) as int);
    max_of(e, p.log_range)
}

/// A copy of a vector of words.
pub fn copied_words(v: &Vec<usize>) -> (out: Vec<usize>)
    ensures
        out@ == v@,
{
    let mut out: Vec<usize> = Vec::new();
    for i in 0..v.len()
        invariant
            out@ == v@.take(i as int),
    {
        out.push(v[i]);
        assert(out@ =~= v@.take(i + 1));
    }
    assert(v@.take(v.len() as int) =~= v@);
    out
}

/// What is known of a constraint row.
pub ghost struct RowInfo {
    pub out: int,
    pub ptr: int,
    pub cr: int,
    pub dcr: int,
    pub lin: int,
    pub lo: int,
    pub hi: int,
}

/// One for a matrix product or a convolution, zero for the others.
pub open spec fn is_linear(op: Opcode) -> int {
    if op is MatMult || op is Conv {
        1
    } else {
        0
    }
}

/// The constraint row `r` of instruction `i`.
pub open spec fn cons_row(e: EncodingView, i: int, r: int) -> RowInfo {
    let d = delta_at(e, i).cr;
    RowInfo {
        out: e.out[i],
        ptr: i,
        cr: e.cr[i],
        dcr: d,
        lin: is_linear(e.opcode[i]),
        lo: r,
        hi: d - 1 - r,
    }
}

/// The constraint rows of the first `n` instructions.
pub open spec fn cons_rows(e: EncodingView, n: int) -> Seq<RowInfo>
    decreases n,
{
    if n <= 0 {
        Seq::empty()
    } else {
        cons_rows(e, n - 1) + Seq::new(
            delta_at(e, n - 1).cr as nat,
            |r: int| cons_row(e, n - 1, r),
        )
    }
}

/// What is known of a lookup row: where its instruction writes, and whether it is
/// a lookup.
pub open spec fn lu_row(e: EncodingView, i: int) -> (int, int) {
    (
        e.out[i],
        if e.opcode[i] is Lookup {
            1
        } else {
            0
        },
    )
}

/// The lookup rows of the first `n` instructions.
pub open spec fn lu_rows(e: EncodingView, n: int) -> Seq<(int, int)>
    decreases n,
{
    if n <= 0 {
        Seq::empty()
    } else {
        lu_rows(e, n - 1) + Seq::new(
            delta_at(e, n - 1).lr as nat,
            |r: int| lu_row(e, n - 1),
        )
    }
}

/// An entry of a family.
pub ghost struct XRow {
    pub ptr: int,
    pub base: int,
    pub cr: int,
    pub out: int,
    pub aux: int,
    pub ops: Seq<int>,
    pub digits: Seq<int>,
    pub slacks: Seq<int>,
    pub pow: int,
}

/// The coordinates of point `t` of a grid with the given sides.
pub open spec fn coordinates(sides: Seq<int>, t: int) -> Seq<int>
    decreases sides.len(),
{
    if sides.len() == 0 {
        Seq::empty()
    } else {
        coordinates(sides.drop_last(), t / sides.last()).push(t % sides.last())
    }
}

/// The sides of the grid of a family.
pub open spec fn sides_of(f: FamilyView, o: Seq<int>) -> Seq<int> {
    Seq::new(f.radices.len(), |j: int| ex_value(f.radices[j], o))
}

/// The power of an entry by the first `n` terms, with the given coordinates and
/// number.
pub open spec fn power_of(f: FamilyView, o: Seq<int>, d: Seq<int>, t: int, n: int) -> int
    decreases n,
{
    if n <= 0 {
        ex_value(f.pow_const, o)
    } else {
        power_of(f, o, d, t, n - 1) + ex_value(f.pow[n - 1].0, o) * match f.pow[n - 1].1 {
            PowTerm::Digit(j) => d[j as int],
            PowTerm::Flat => t,
        }
    }
}

/// Entry `t` of instruction `i` in a family.
pub open spec fn x_row(e: EncodingView, f: FamilyView, i: int, t: int) -> XRow {
    let o = operands_of(e, i);
    let sides = sides_of(f, o);
    let d = coordinates(sides, t);
    XRow {
        ptr: i,
        base: share_sum(e, f, i),
        cr: e.cr[i],
        out: e.out[i],
        aux: e.aux[i],
        ops: o,
        digits: Seq::new(
            MAX_DIGITS as nat,
            |j: int| if j < sides.len() {
                d[j]
            } else {
                0
            },
        ),
        slacks: Seq::new(
            MAX_DIGITS as nat,
            |j: int| if j < sides.len() {
                sides[j] - 1 - d[j]
            } else {
                0
            },
        ),
        pow: power_of(f, o, d, t, f.pow.len() as int),
    }
}

/// The entries of the first `n` instructions in a family.
pub open spec fn family_rows(e: EncodingView, f: FamilyView, n: int) -> Seq<XRow>
    decreases n,
{
    if n <= 0 {
        Seq::empty()
    } else {
        family_rows(e, f, n - 1) + Seq::new(
            share(e, f, n - 1) as nat,
            |t: int| x_row(e, f, n - 1, t),
        )
    }
}

/// The entries of the first `n` families.
pub open spec fn x_rows(e: EncodingView, n: int) -> Seq<XRow>
    decreases n,
{
    if n <= 0 {
        Seq::empty()
    } else {
        x_rows(e, n - 1) + family_rows(e, families_of()[n - 1], e.opcode.len() as int)
    }
}

/// The size of the cube that `n` values need.
pub open spec fn wide(n: int) -> int {
    pow2(log2_ceil(n)) as int
}

/// The values of a counter, and after them its end.
pub open spec fn counter_column(e: EncodingView, x: int) -> Seq<int> {
    let len = wide(e.opcode.len() as int + 1);
    if x == CTR_OUT {
        filled_to(e.out, len, e.aux_start)
    } else if x == CTR_AUX {
        filled_to(e.aux, len, e.z_len)
    } else if x == CTR_CR {
        filled_to(e.cr, len, e.cons_line)
    } else {
        filled_to(e.lr, len, e.lu_line)
    }
}

/// What an instruction takes of what a counter counts.
pub open spec fn delta_part(d: DeltaView, x: int) -> int {
    if x == CTR_OUT {
        d.out
    } else if x == CTR_AUX {
        d.aux
    } else if x == CTR_CR {
        d.cr
    } else {
        d.lr
    }
}

/// A column of what is known of the constraint rows.
pub open spec fn cons_column(e: EncodingView, g: spec_fn(RowInfo) -> int) -> Seq<int> {
    filled_to(cons_rows(e, e.opcode.len() as int).map_values(g), wide(e.cons_line), 0)
}

/// A column of what is known of the lookup rows.
pub open spec fn lu_column(e: EncodingView, g: spec_fn((int, int)) -> int) -> Seq<int> {
    filled_to(lu_rows(e, e.opcode.len() as int).map_values(g), wide(e.lu_line), 0)
}

/// A column of the entries of the families.
pub open spec fn x_column(e: EncodingView, x_len: int, g: spec_fn(XRow) -> int) -> Seq<int> {
    filled_to(x_rows(e, NUM_FAMILIES as int).map_values(g), wide(x_len), 0)
}

/// The column of an operand of the entries of the families.
pub open spec fn op_column(e: EncodingView, x_len: int, s: int) -> Seq<int> {
    x_column(e, x_len, |r: XRow| r.ops[s])
}

/// The column of a coordinate of the entries of the families.
pub open spec fn digit_column(e: EncodingView, x_len: int, j: int) -> Seq<int> {
    x_column(e, x_len, |r: XRow| r.digits[j])
}

/// The column of what is left between a coordinate and the side of its grid.
pub open spec fn left_column(e: EncodingView, x_len: int, j: int) -> Seq<int> {
    x_column(e, x_len, |r: XRow| r.slacks[j])
}

/// Where the instruction of a constraint row writes.
pub open spec fn row_out_column(e: EncodingView) -> Seq<int> {
    cons_column(e, |r: RowInfo| r.out)
}

/// Which constraint rows belong to products and convolutions.
pub open spec fn is_lin_column(e: EncodingView) -> Seq<int> {
    cons_column(e, |r: RowInfo| r.lin)
}

/// Where the instruction of a lookup row writes.
pub open spec fn lu_out_column(e: EncodingView) -> Seq<int> {
    lu_column(e, |r: (int, int)| r.0)
}

/// The place after the last entry of matrix `m` on the suffix columns.
pub open spec fn after(c: CircuitView, m: int) -> int {
    cumulated(suffix_lens(c), m + 1)
}

/// The row of entry `t` among the lookup rows.
pub open spec fn lookup_row_of(c: CircuitView, t: int) -> int {
    suffix_group(c).row[t] - pow2((suffix_group(c).log_row - 1) as nat)
}

/// The limit of the reads of entry `t`.
pub open spec fn limit_at(e: EncodingView, c: CircuitView, t: int) -> int {
    if t < after(c, 2) {
        row_out_column(e)[suffix_group(c).row[t]]
    } else if t < after(c, 3) {
        lu_out_column(e)[lookup_row_of(c, t)]
    } else {
        0
    }
}

/// One if entry `t` is in a row of a product or a convolution.
pub open spec fn linear_at(e: EncodingView, c: CircuitView, t: int) -> int {
    if t < after(c, 2) {
        is_lin_column(e)[suffix_group(c).row[t]]
    } else {
        0
    }
}

/// What is left between the cell that entry `t` reads and its limit, where there is
/// one.
pub open spec fn slack_at(e: EncodingView, c: CircuitView, t: int) -> int {
    let left = limit_at(e, c, t) - e.weight_len - suffix_group(c).col[t] - 1;
    if t < after(c, 1) {
        if linear_at(e, c, t) == 0 {
            left
        } else {
            0
        }
    } else if after(c, 2) <= t < after(c, 3) {
        left
    } else {
        0
    }
}

/// A column over the entries on the suffix columns.
pub open spec fn entry_column(c: CircuitView, g: spec_fn(int) -> int) -> Seq<int> {
    let n = suffix_group(c).row.len() as int;
    filled_to(Seq::new(n as nat, |t: int| g(t)), wide(n), 0)
}

/// A column over the entries on the prefix columns.
pub open spec fn prefix_column(c: CircuitView, g: spec_fn(int) -> int) -> Seq<int> {
    let n = prefix_group(c).row.len() as int;
    filled_to(Seq::new(n as nat, |t: int| g(t)), wide(n), 0)
}

/// The mask of the entries from one place up to another.
pub open spec fn mask_column(e: EncodingView, c: CircuitView, lo: int, hi: int) -> Seq<int> {
    entry_column(
        c,
        |t: int| if lo <= t < hi {
            linear_at(e, c, t)
        } else {
            0
        },
    )
}

/// What is left between all reads and their limits, between the constraint rows and
/// the ends of their blocks, and between the coordinates and the sides of the grids.
pub open spec fn slacks_of(e: EncodingView, c: CircuitView, x_len: int) -> Seq<int> {
    entry_column(c, |t: int| slack_at(e, c, t)) + prefix_column(
        c,
        |t: int| e.weight_len - 1 - prefix_group(c).col[t],
    ) + cons_column(e, |r: RowInfo| r.lo) + cons_column(e, |r: RowInfo| r.hi) + digit_column(
        e,
        x_len,
        0,
    ) + digit_column(e, x_len, 1) + digit_column(e, x_len, 2) + digit_column(e, x_len, 3)
        + left_column(e, x_len, 0) + left_column(e, x_len, 1) + left_column(e, x_len, 2)
        + left_column(e, x_len, 3)
}

/// The vector that a registration commits to, for each of the vectors that a check
/// reads.
pub open spec fn witness_of(
    e: EncodingView,
    c: CircuitView,
    x_len: int,
    log_range: int,
    tab: Tab,
) -> Seq<int> {
    let q = e.opcode.len() as int;
    let len = wide(q + 1);
    match tab {
        Tab::Sel(j) => filled_to(e.sel[j as int], len, 0),
        Tab::Opn(s) => filled_to(e.opn[s as int], len, 0),
        Tab::Ctr(x) => counter_column(e, x as int),
        Tab::DCtr(x) => filled_to(
            Seq::new(q as nat, |i: int| delta_part(delta_at(e, i), x as int)),
            len,
            0,
        ),
        Tab::Base(f) => Seq::new(
            len as nat,
            |i: int|
                share_sum(
                    e,
                    families_of()[f as int],
                    if i < q {
                        i
                    } else {
                        q
                    },
                ),
        ),
        Tab::Mult(f) => filled_to(
            Seq::new(q as nat, |i: int| share(e, families_of()[f as int], i)),
            len,
            0,
        ),
        Tab::RowOut => row_out_column(e),
        Tab::RowPtr => cons_column(e, |r: RowInfo| r.ptr),
        Tab::RowCr => cons_column(e, |r: RowInfo| r.cr),
        Tab::RowDcr => cons_column(e, |r: RowInfo| r.dcr),
        Tab::IsLin => is_lin_column(e),
        Tab::RowSlackLo => cons_column(e, |r: RowInfo| r.lo),
        Tab::RowSlackHi => cons_column(e, |r: RowInfo| r.hi),
        Tab::CntC => counts(suffix_group(c).row.take(after(c, 2)), wide(e.cons_line)),
        Tab::BCnt => counts(prefix_group(c).row, wide(e.cons_line)),
        Tab::LuOut => lu_out_column(e),
        Tab::IsLookup => lu_column(e, |r: (int, int)| r.1),
        Tab::CntL => counts(
            Seq::new(
                (after(c, 3) - after(c, 2)) as nat,
                |k: int| lookup_row_of(c, after(c, 2) + k),
            ),
            wide(e.lu_line),
        ),
        Tab::MaxRead => entry_column(c, |t: int| limit_at(e, c, t)),
        Tab::Diff => entry_column(c, |t: int| slack_at(e, c, t)),
        Tab::EntLin => entry_column(c, |t: int| linear_at(e, c, t)),
        Tab::MaskA => mask_column(e, c, 0, after(c, 0)),
        Tab::MaskB => mask_column(e, c, after(c, 0), after(c, 1)),
        Tab::MaskC => mask_column(e, c, after(c, 1), after(c, 2)),
        Tab::DiffPre => prefix_column(c, |t: int| e.weight_len - 1 - prefix_group(c).col[t]),
        Tab::BEntLin => prefix_column(c, |t: int| is_lin_column(e)[prefix_group(c).row[t]]),
        Tab::MaskPre => prefix_column(c, |t: int| is_lin_column(e)[prefix_group(c).row[t]]),
        Tab::XPtr => x_column(e, x_len, |r: XRow| r.ptr),
        Tab::XBase => x_column(e, x_len, |r: XRow| r.base),
        Tab::XCr => x_column(e, x_len, |r: XRow| r.cr),
        Tab::XOut => x_column(e, x_len, |r: XRow| r.out),
        Tab::XAux => x_column(e, x_len, |r: XRow| r.aux),
        Tab::XOp(s) => op_column(e, x_len, s as int),
        Tab::XDigit(j) => digit_column(e, x_len, j as int),
        Tab::XDigitSlack(j) => left_column(e, x_len, j as int),
        Tab::XPow => x_column(e, x_len, |r: XRow| r.pow),
        Tab::RangeCnt => counts(slacks_of(e, c, x_len), pow2(log_range as nat) as int),
        Tab::Row => suffix_group(c).row,
        Tab::Col => suffix_group(c).col,
        Tab::Val => suffix_group(c).val,
        Tab::Pow => suffix_group(c).pow,
        Tab::BRow => prefix_group(c).row,
        Tab::BCol => prefix_group(c).col,
        Tab::BVal => prefix_group(c).val,
        Tab::BPow => prefix_group(c).pow,
        Tab::Tp => c.tp,
        _ => Seq::empty(),
    }
}

/// All the places that are left are within the range.
pub open spec fn slacks_in_range(e: EncodingView, c: CircuitView, x_len: int, n: int) -> bool {
    below(slacks_of(e, c, x_len), n)
}

/// The vectors that a registration commits to.
#[derive(Clone)]
pub struct ProgramWitness {
    pub sel: Vec<MlPoly>,
    pub opn: Vec<MlPoly>,
    pub ctr: Vec<MlPoly>,
    pub dctr: Vec<MlPoly>,
    pub base: Vec<MlPoly>,
    pub mult: Vec<MlPoly>,
    pub row_out: MlPoly,
    pub row_ptr: MlPoly,
    pub row_cr: MlPoly,
    pub row_dcr: MlPoly,
    pub is_lin: MlPoly,
    pub row_slack_lo: MlPoly,
    pub row_slack_hi: MlPoly,
    pub cnt_c: MlPoly,
    pub b_cnt: MlPoly,
    pub lu_out: MlPoly,
    pub is_lookup: MlPoly,
    pub cnt_l: MlPoly,
    pub max_read: MlPoly,
    pub diff: MlPoly,
    pub ent_lin: MlPoly,
    pub mask_a: MlPoly,
    pub mask_b: MlPoly,
    pub mask_c: MlPoly,
    pub diff_pre: MlPoly,
    pub b_ent_lin: MlPoly,
    pub mask_pre: MlPoly,
    pub x_ptr: MlPoly,
    pub x_base: MlPoly,
    pub x_cr: MlPoly,
    pub x_out: MlPoly,
    pub x_aux: MlPoly,
    pub x_op: Vec<MlPoly>,
    pub x_digit: Vec<MlPoly>,
    pub x_digit_slack: Vec<MlPoly>,
    pub x_pow: MlPoly,
    pub range_cnt: MlPoly,
}

/// The numbers that a vector is known by are in range.
pub open spec fn tab_ok(t: Tab) -> bool {
    match t {
        Tab::Sel(j) => j < NUM_OPCODES,
        Tab::Opn(s) => s < NUM_OPERANDS,
        Tab::Ctr(x) => x < NUM_COUNTERS,
        Tab::DCtr(x) => x < NUM_COUNTERS,
        Tab::Base(f) => f < NUM_FAMILIES,
        Tab::Mult(f) => f < NUM_FAMILIES,
        Tab::XOp(s) => s < NUM_OPERANDS,
        Tab::XDigit(j) => j < MAX_DIGITS,
        Tab::XDigitSlack(j) => j < MAX_DIGITS,
        _ => true,
    }
}

/// The vector is one of the circuit.
pub open spec fn of_circuit(t: Tab) -> bool {
    t is Row || t is Col || t is Val || t is Pow || t is BRow || t is BCol || t is BVal || t is BPow
        || t is Tp
}

/// The vector is one that a registration commits to.
pub open spec fn of_program(t: Tab) -> bool {
    t.committed() && !of_circuit(t) && tab_ok(t)
}

impl ProgramWitness {
    /// The vector with the given name.
    pub open spec fn tab(&self, t: Tab) -> MlPoly {
        match t {
            Tab::Sel(j) => self.sel[j as int],
            Tab::Opn(s) => self.opn[s as int],
            Tab::Ctr(x) => self.ctr[x as int],
            Tab::DCtr(x) => self.dctr[x as int],
            Tab::Base(f) => self.base[f as int],
            Tab::Mult(f) => self.mult[f as int],
            Tab::RowOut => self.row_out,
            Tab::RowPtr => self.row_ptr,
            Tab::RowCr => self.row_cr,
            Tab::RowDcr => self.row_dcr,
            Tab::IsLin => self.is_lin,
            Tab::RowSlackLo => self.row_slack_lo,
            Tab::RowSlackHi => self.row_slack_hi,
            Tab::BCnt => self.b_cnt,
            Tab::EntLin => self.ent_lin,
            Tab::MaskA => self.mask_a,
            Tab::MaskB => self.mask_b,
            Tab::MaskC => self.mask_c,
            Tab::BEntLin => self.b_ent_lin,
            Tab::MaskPre => self.mask_pre,
            Tab::XPtr => self.x_ptr,
            Tab::XBase => self.x_base,
            Tab::XCr => self.x_cr,
            Tab::XOut => self.x_out,
            Tab::XAux => self.x_aux,
            Tab::XOp(s) => self.x_op[s as int],
            Tab::XDigit(j) => self.x_digit[j as int],
            Tab::XDigitSlack(j) => self.x_digit_slack[j as int],
            Tab::XPow => self.x_pow,
            Tab::CntC => self.cnt_c,
            Tab::LuOut => self.lu_out,
            Tab::IsLookup => self.is_lookup,
            Tab::CntL => self.cnt_l,
            Tab::MaxRead => self.max_read,
            Tab::Diff => self.diff,
            Tab::DiffPre => self.diff_pre,
            _ => self.range_cnt,
        }
    }

    /// There are as many vectors as there have to be.
    pub open spec fn shaped(&self) -> bool {
        &&& self.sel.len() == NUM_OPCODES
        &&& self.opn.len() == NUM_OPERANDS
        &&& self.ctr.len() == NUM_COUNTERS
        &&& self.dctr.len() == NUM_COUNTERS
        &&& self.base.len() == NUM_FAMILIES
        &&& self.mult.len() == NUM_FAMILIES
        &&& self.x_op.len() == NUM_OPERANDS
        &&& self.x_digit.len() == MAX_DIGITS
        &&& self.x_digit_slack.len() == MAX_DIGITS
    }

    /// The vectors are those for a program and its circuit.
    pub open spec fn holds(
        &self,
        e: EncodingView,
        c: CircuitView,
        x_len: int,
        log_range: int,
    ) -> bool {
        &&& self.shaped()
        &&& forall|t: Tab|
            of_program(t) ==> (#[trigger] self.tab(t))@ == witness_of(e, c, x_len, log_range, t)
    }

    /// The vector with the given name.
    pub fn poly(&self, t: Tab) -> (out: &MlPoly)
        requires
            self.shaped(),
            tab_ok(t),
        ensures
            *out == self.tab(t),
    {
        match t {
            Tab::Sel(j) => &self.sel[j],
            Tab::Opn(s) => &self.opn[s],
            Tab::Ctr(x) => &self.ctr[x],
            Tab::DCtr(x) => &self.dctr[x],
            Tab::Base(f) => &self.base[f],
            Tab::Mult(f) => &self.mult[f],
            Tab::RowOut => &self.row_out,
            Tab::RowPtr => &self.row_ptr,
            Tab::RowCr => &self.row_cr,
            Tab::RowDcr => &self.row_dcr,
            Tab::IsLin => &self.is_lin,
            Tab::RowSlackLo => &self.row_slack_lo,
            Tab::RowSlackHi => &self.row_slack_hi,
            Tab::BCnt => &self.b_cnt,
            Tab::EntLin => &self.ent_lin,
            Tab::MaskA => &self.mask_a,
            Tab::MaskB => &self.mask_b,
            Tab::MaskC => &self.mask_c,
            Tab::BEntLin => &self.b_ent_lin,
            Tab::MaskPre => &self.mask_pre,
            Tab::XPtr => &self.x_ptr,
            Tab::XBase => &self.x_base,
            Tab::XCr => &self.x_cr,
            Tab::XOut => &self.x_out,
            Tab::XAux => &self.x_aux,
            Tab::XOp(s) => &self.x_op[s],
            Tab::XDigit(j) => &self.x_digit[j],
            Tab::XDigitSlack(j) => &self.x_digit_slack[j],
            Tab::XPow => &self.x_pow,
            Tab::CntC => &self.cnt_c,
            Tab::LuOut => &self.lu_out,
            Tab::IsLookup => &self.is_lookup,
            Tab::CntL => &self.cnt_l,
            Tab::MaxRead => &self.max_read,
            Tab::Diff => &self.diff,
            Tab::DiffPre => &self.diff_pre,
            _ => &self.range_cnt,
        }
    }
}

/// The program and the circuit belong together, and the profile to them.
pub open spec fn buildable(e: EncodingView, c: CircuitView, p: ProfileView) -> bool {
    &&& encoding_ready(e)
    &&& shaped(e, c)
    &&& circuit_fits(c, 1)
    &&& p == circuit_profile(e, c)
}

/// The profile of a program, for the entries of a circuit.
pub open spec fn circuit_profile(e: EncodingView, c: CircuitView) -> ProfileView {
    profile_of(
        e,
        suffix_lens(c),
        suffix_group(c).row.len() as int,
        prefix_group(c).row.len() as int,
        suffix_group(c).log_row,
    )
}

/// Pads a column and makes it a polynomial.
fn column_poly(v: &Vec<i64>, len: usize) -> (out: MlPoly)
    requires
        v.len() <= len,
    ensures
        out@ == filled_to(numbers(v@), len as int, 0),
{
    to_poly(&padded(v, len, 0))
}

fn sel_polys(rows: &Vec<Vec<i64>>, n: usize, len: usize) -> (out: Vec<MlPoly>)
    requires
        n <= rows.len(),
        forall|j: int| 0 <= j < n ==> (#[trigger] rows[j]).len() <= len,
    ensures
        out.len() == n,
        forall|j: int|
            0 <= j < n ==> (#[trigger] out[j])@ == filled_to(numbers(rows[j]@), len as int, 0),
{
    let mut out: Vec<MlPoly> = Vec::new();
    for j in 0..n
        invariant
            n <= rows.len(),
            forall|j: int| 0 <= j < n ==> (#[trigger] rows[j]).len() <= len,
            out.len() == j,
            forall|l: int|
                0 <= l < j ==> (#[trigger] out[l])@ == filled_to(numbers(rows[l]@), len as int, 0),
    {
        assert(rows[j as int].len() <= len);
        out.push(column_poly(&rows[j], len));
    }
    out
}

fn counter_poly(v: &Vec<usize>, len: usize, end: usize) -> (out: MlPoly)
    requires
        v.len() <= len,
        end <= size_limit(),
        forall|i: int| 0 <= i < v.len() ==> (#[trigger] v[i]) <= size_limit(),
    ensures
        out@ == filled_to(words(v@), len as int, end as int),
{
    to_poly(&padded(&signed_words(v), len, end as i64))
}

fn delta_polys(enc: &ProgramEncoding, len: usize) -> (out: Vec<MlPoly>)
    requires
        encoding_ready(enc@),
        enc@.opcode.len() <= len,
    ensures
        out.len() == NUM_COUNTERS,
        forall|x: int|
            0 <= x < NUM_COUNTERS ==> (#[trigger] out[x])@ == filled_to(
                Seq::new(
                    enc@.opcode.len(),
                    |i: int| delta_part(delta_at(enc@, i), x),
                ),
                len as int,
                0,
            ),
{
    let ghost e = enc@;
    let q: usize = enc.opcode.len();
    let mut d0: Vec<i64> = Vec::new();
    let mut d1: Vec<i64> = Vec::new();
    let mut d2: Vec<i64> = Vec::new();
    let mut d3: Vec<i64> = Vec::new();
    for i in 0..q
        invariant
            e == enc@,
            encoding_ready(e),
            q == e.opcode.len(),
            d0.len() == i,
            d1.len() == i,
            d2.len() == i,
            d3.len() == i,
            forall|j: int| 0 <= j < i ==> (#[trigger] d0[j]) as int == delta_at(e, j).out,
            forall|j: int| 0 <= j < i ==> (#[trigger] d1[j]) as int == delta_at(e, j).aux,
            forall|j: int| 0 <= j < i ==> (#[trigger] d2[j]) as int == delta_at(e, j).cr,
            forall|j: int| 0 <= j < i ==> (#[trigger] d3[j]) as int == delta_at(e, j).lr,
    {
        proof {
            lemma_ready(e, i as int);
        }
        let d = ProgramEncoding::deltas(enc.opcode[i], enc.operands(i).as_slice());
        d0.push(d.out as i64);
        d1.push(d.aux as i64);
        d2.push(d.cr as i64);
        d3.push(d.lr as i64);
    }
    let mut out: Vec<MlPoly> = Vec::new();
    out.push(column_poly(&d0, len));
    out.push(column_poly(&d1, len));
    out.push(column_poly(&d2, len));
    out.push(column_poly(&d3, len));
    assert(numbers(d0@) =~= Seq::new(q as nat, |i: int| delta_part(delta_at(e, i), 0)));
    assert(numbers(d1@) =~= Seq::new(q as nat, |i: int| delta_part(delta_at(e, i), 1)));
    assert(numbers(d2@) =~= Seq::new(q as nat, |i: int| delta_part(delta_at(e, i), 2)));
    assert(numbers(d3@) =~= Seq::new(q as nat, |i: int| delta_part(delta_at(e, i), 3)));
    out
}

/// The starts and the shares of the instructions in each family.
fn family_polys(enc: &ProgramEncoding, len: usize) -> (out: (Vec<MlPoly>, Vec<MlPoly>))
    requires
        encoding_ready(enc@),
        enc@.opcode.len() <= len,
        len == wide(enc@.opcode.len() as int + 1),
    ensures
        out.0.len() == NUM_FAMILIES,
        out.1.len() == NUM_FAMILIES,
        forall|f: int|
            0 <= f < NUM_FAMILIES ==> (#[trigger] out.0[f])@ == Seq::new(
                len as nat,
                |i: int|
                    share_sum(
                        enc@,
                        families_of()[f],
                        if i < enc@.opcode.len() {
                            i
                        } else {
                            enc@.opcode.len() as int
                        },
                    ),
            ),
        forall|f: int|
            0 <= f < NUM_FAMILIES ==> (#[trigger] out.1[f])@ == filled_to(
                Seq::new(enc@.opcode.len(), |i: int| share(enc@, families_of()[f], i)),
                len as int,
                0,
            ),
{
    let ghost e = enc@;
    let ghost fv = families_of();
    let q: usize = enc.opcode.len();
    let fams = families();
    let mut bases: Vec<MlPoly> = Vec::new();
    let mut mults: Vec<MlPoly> = Vec::new();
    for f in 0..NUM_FAMILIES
        invariant
            e == enc@,
            encoding_ready(e),
            q == e.opcode.len(),
            q <= len,
            fv == families_of(),
            fams.len() == NUM_FAMILIES,
            family_views(fams@) == fv,
            bases.len() == f,
            mults.len() == f,
            forall|g: int|
                0 <= g < f ==> (#[trigger] bases[g])@ == Seq::new(
                    len as nat,
                    |i: int|
                        share_sum(
                            e,
                            families_of()[g],
                            if i < e.opcode.len() {
                                i
                            } else {
                                e.opcode.len() as int
                            },
                        ),
                ),
            forall|g: int|
                0 <= g < f ==> (#[trigger] mults[g])@ == filled_to(
                    Seq::new(e.opcode.len(), |i: int| share(e, families_of()[g], i)),
                    len as int,
                    0,
                ),
    {
        assert(family_views(fams@)[f as int] == fams[f as int]@);
        let ghost fam = fv[f as int];
        let mut base: Vec<i64> = Vec::new();
        let mut mult: Vec<i64> = Vec::new();
        let mut running: usize = 0;
        for i in 0..q
            invariant
                e == enc@,
                encoding_ready(e),
                q == e.opcode.len(),
                fv == families_of(),
                f < NUM_FAMILIES,
                fam == fv[f as int],
                fams.len() == NUM_FAMILIES,
                fams[f as int]@ == fam,
                running == share_sum(e, fam, i as int),
                base.len() == i,
                mult.len() == i,
                forall|j: int| 0 <= j < i ==> (#[trigger] base[j]) as int == share_sum(e, fam, j),
                forall|j: int| 0 <= j < i ==> (#[trigger] mult[j]) as int == share(e, fam, j),
        {
            proof {
                assert(instr_families_fit(e, i as int));
                lemma_share_sum(e, f as int, i as int, i + 1);
            }
            base.push(running as i64);
            if fams[f].opcode == enc.opcode[i] {
                let ops = enc.operands_i64(i);
                let size: usize = fams[f].size(ops.as_slice());
                mult.push(size as i64);
                running = running + size;
            } else {
                mult.push(0);
            }
        }
        proof {
            lemma_share_sum(e, f as int, q as int, q as int);
        }
        let pb = to_poly(&padded(&base, len, running as i64));
        let pm = column_poly(&mult, len);
        proof {
            assert(pb@ =~= Seq::new(
                len as nat,
                |i: int|
                    share_sum(
                        e,
                        families_of()[f as int],
                        if i < e.opcode.len() {
                            i
                        } else {
                            e.opcode.len() as int
                        },
                    ),
            ));
            assert(numbers(mult@) =~= Seq::new(
                e.opcode.len(),
                |i: int| share(e, families_of()[f as int], i),
            ));
        }
        bases.push(pb);
        mults.push(pm);
    }
    (bases, mults)
}

/// What is known of the entries on the suffix columns.
struct EntryColumns {
    limit: Vec<i64>,
    slack: Vec<i64>,
    linear: Vec<i64>,
    mask_a: Vec<i64>,
    mask_b: Vec<i64>,
    mask_c: Vec<i64>,
}

/// The value of the mask of the entries from one place up to another.
pub open spec fn masked(e: EncodingView, c: CircuitView, lo: int, hi: int, t: int) -> int {
    if lo <= t < hi {
        linear_at(e, c, t)
    } else {
        0
    }
}

impl EntryColumns {
    spec fn holds(&self, e: EncodingView, c: CircuitView, n: int) -> bool {
        &&& self.limit.len() == n
        &&& self.slack.len() == n
        &&& self.linear.len() == n
        &&& self.mask_a.len() == n
        &&& self.mask_b.len() == n
        &&& self.mask_c.len() == n
        &&& forall|t: int| 0 <= t < n ==> (#[trigger] self.limit[t]) as int == limit_at(e, c, t)
        &&& forall|t: int| 0 <= t < n ==> (#[trigger] self.slack[t]) as int == slack_at(e, c, t)
        &&& forall|t: int| 0 <= t < n ==> (#[trigger] self.linear[t]) as int == linear_at(e, c, t)
        &&& forall|t: int|
            0 <= t < n ==> (#[trigger] self.mask_a[t]) as int == masked(e, c, 0, after(c, 0), t)
        &&& forall|t: int|
            0 <= t < n ==> (#[trigger] self.mask_b[t]) as int == masked(
                e,
                c,
                after(c, 0),
                after(c, 1),
                t,
            )
        &&& forall|t: int|
            0 <= t < n ==> (#[trigger] self.mask_c[t]) as int == masked(
                e,
                c,
                after(c, 1),
                after(c, 2),
                t,
            )
    }
}

/// The facts about the columns that the entries look at.
spec fn looked_up(
    e: EncodingView,
    c: CircuitView,
    row_out: Seq<i64>,
    is_lin: Seq<i64>,
    lu_out: Seq<i64>,
) -> bool {
    &&& numbers(row_out) == row_out_column(e)
    &&& numbers(is_lin) == is_lin_column(e)
    &&& numbers(lu_out) == lu_out_column(e)
    &&& row_out.len() >= c.a.len()
    &&& is_lin.len() >= c.a.len()
    &&& lu_out.len() >= c.d.len()
    &&& forall|i: int| 0 <= i < row_out.len() ==> 0 <= #[trigger] row_out[i] <= size_limit()
    &&& forall|i: int| 0 <= i < lu_out.len() ==> 0 <= #[trigger] lu_out[i] <= size_limit()
}

#[verifier::rlimit(40)]
fn entry_columns(
    row_idx: &Vec<usize>,
    col_idx: &Vec<usize>,
    profile: &RegistrationProfile,
    row_out: &Vec<i64>,
    is_lin: &Vec<i64>,
    lu_out: &Vec<i64>,
    Ghost(e): Ghost<EncodingView>,
    Ghost(c): Ghost<CircuitView>,
) -> (out: EntryColumns)
    requires
        buildable(e, c, profile@),
        indices(row_idx@) == suffix_group(c).row,
        indices(col_idx@) == suffix_group(c).col,
        looked_up(e, c, row_out@, is_lin@, lu_out@),
    ensures
        out.holds(e, c, suffix_group(c).row.len() as int),
{
    let ghost g = suffix_group(c);
    proof {
        lemma_entry_rows(c);
        crate::sparse::lemma_suffix_group(c, 1);
        reveal_with_fuel(cumulated, 6);
        assert(profile@.matrix_lens == suffix_lens(c));
    }
    let n: usize = row_idx.len();
    let (_, a_hi) = profile.segment(0);
    let (_, b_hi) = profile.segment(1);
    let (_, c_hi) = profile.segment(2);
    let (_, d_hi) = profile.segment(3);
    let flag: usize = profile.row_flag;
    let wl: i64 = profile.weight_len as i64;
    let mut all = EntryColumns {
        limit: Vec::new(),
        slack: Vec::new(),
        linear: Vec::new(),
        mask_a: Vec::new(),
        mask_b: Vec::new(),
        mask_c: Vec::new(),
    };
    assert(g.row.len() == n);
    assert(g.col.len() == n);
    for t in 0..n
        invariant
            circuit_fits(c, 1),
            n == row_idx.len(),
            n == col_idx.len(),
            g == suffix_group(c),
            n == g.row.len(),
            indices(row_idx@) == g.row,
            indices(col_idx@) == g.col,
            looked_up(e, c, row_out@, is_lin@, lu_out@),
            a_hi == after(c, 0),
            b_hi == after(c, 1),
            c_hi == after(c, 2),
            d_hi == after(c, 3),
            a_hi <= b_hi <= c_hi <= d_hi <= n,
            after(c, 3) <= after(c, 4) <= n,
            flag == pow2((g.log_row - 1) as nat),
            wl == e.weight_len,
            0 <= wl <= size_limit(),
            c.z_len <= size_limit(),
            c.weight_len >= 0,
            forall|t: int| 0 <= t < c_hi ==> 0 <= #[trigger] g.row[t] < c.a.len(),
            forall|t: int| c_hi <= t < d_hi ==> flag <= #[trigger] g.row[t] < flag + c.d.len(),
            forall|t: int| 0 <= t < d_hi ==> 0 <= #[trigger] g.col[t] < c.z_len - c.weight_len,
            all.holds(e, c, t as int),
    {
        let row: usize = row_idx[t];
        let col: usize = col_idx[t];
        proof {
            assert(g.row[t as int] == row);
            assert(g.col[t as int] == col);
        }
        let mut limit: i64 = 0;
        let mut linear: i64 = 0;
        let mut slack: i64 = 0;
        let mut ma: i64 = 0;
        let mut mb: i64 = 0;
        let mut mc: i64 = 0;
        if t < c_hi {
            limit = row_out[row];
            linear = is_lin[row];
            proof {
                assert(numbers(row_out@)[row as int] == limit);
                assert(numbers(is_lin@)[row as int] == linear);
            }
            if t < a_hi {
                ma = linear;
            } else if t < b_hi {
                mb = linear;
            } else {
                mc = linear;
            }
            if linear == 0 && t < b_hi {
                slack = limit - wl - col as i64 - 1;
            }
        } else if t < d_hi {
            let l: usize = row - flag;
            limit = lu_out[l];
            assert(numbers(lu_out@)[l as int] == limit);
            slack = limit - wl - col as i64 - 1;
        }
        all.limit.push(limit);
        all.slack.push(slack);
        all.linear.push(linear);
        all.mask_a.push(ma);
        all.mask_b.push(mb);
        all.mask_c.push(mc);
        proof {
            assert(limit == limit_at(e, c, t as int));
            assert(linear == linear_at(e, c, t as int));
            assert(slack == slack_at(e, c, t as int));
        }
    }
    all
}

/// The first words of a vector from one place up to another, less a number.
fn part_of(v: &Vec<usize>, lo: usize, hi: usize, less: usize) -> (out: Vec<usize>)
    requires
        lo <= hi <= v.len(),
        forall|t: int| lo <= t < hi ==> less <= #[trigger] v[t],
    ensures
        indices(out@) == Seq::new((hi - lo) as nat, |k: int| v[lo + k] - less),
{
    let mut out: Vec<usize> = Vec::new();
    for t in lo..hi
        invariant
            lo <= t <= hi <= v.len(),
            forall|t: int| lo <= t < hi ==> less <= #[trigger] v[t],
            out.len() == t - lo,
            forall|k: int| 0 <= k < t - lo ==> (#[trigger] out[k]) as int == v[lo + k] - less,
    {
        assert(less <= v[t as int]);
        out.push(v[t] - less);
    }
    assert(indices(out@) =~= Seq::new((hi - lo) as nat, |k: int| v[lo + k] - less));
    out
}

fn extend(all: &mut Vec<i64>, v: &Vec<i64>)
    ensures
        numbers(final(all)@) == numbers(old(all)@) + numbers(v@),
{
    let ghost start = numbers(all@);
    assert(start =~= start + numbers(v@).take(0));
    for i in 0..v.len()
        invariant
            numbers(all@) == start + numbers(v@).take(i as int),
    {
        let ghost cur = numbers(all@);
        all.push(v[i]);
        assert(numbers(all@) =~= cur.push(v[i as int] as int));
        assert(numbers(all@) =~= start + numbers(v@).take(i + 1));
    }
    assert(numbers(v@).take(v.len() as int) =~= numbers(v@));
}

/// How often each number below `n` occurs, if all are.
fn tally(v: &Vec<i64>, n: usize) -> (out: Option<MlPoly>)
    ensures
        out is Some <==> below(numbers(v@), n as int),
        out is Some ==> out->0@ == counts(numbers(v@), n as int),
{
    let ghost nv = numbers(v@);
    let mut idx: Vec<usize> = Vec::new();
    for i in 0..v.len()
        invariant
            nv == numbers(v@),
            idx.len() == i,
            forall|j: int| 0 <= j < i ==> (#[trigger] idx[j]) as int == nv[j],
            forall|j: int| 0 <= j < i ==> 0 <= #[trigger] nv[j] < n,
    {
        let x: i64 = v[i];
        assert(nv[i as int] == x);
        if x < 0 || x as u128 >= n as u128 {
            assert(!(0 <= nv[i as int] < n));
            return None;
        }
        idx.push(x as usize);
    }
    assert(indices(idx@) =~= nv);
    Some(MlPoly(count_exec(&idx, n)))
}

/// What column of an entry of a family to take.
enum Part {
    Ptr,
    Base,
    Cr,
    Out,
    Aux,
    Op(usize),
    Digit(usize),
    Slack(usize),
}

spec fn part_value(p: Part, r: XRow) -> int {
    match p {
        Part::Ptr => r.ptr,
        Part::Base => r.base,
        Part::Cr => r.cr,
        Part::Out => r.out,
        Part::Aux => r.aux,
        Part::Op(s) => r.ops[s as int],
        Part::Digit(j) => r.digits[j as int],
        Part::Slack(j) => r.slacks[j as int],
    }
}

spec fn part_ok(p: Part) -> bool {
    match p {
        Part::Op(s) => s < NUM_OPERANDS,
        Part::Digit(j) => j < MAX_DIGITS,
        Part::Slack(j) => j < MAX_DIGITS,
        _ => true,
    }
}

spec fn rows_wf(rows: Seq<XRow>) -> bool {
    forall|t: int|
        0 <= t < rows.len() ==> (#[trigger] rows[t]).ops.len() == NUM_OPERANDS
            && rows[t].digits.len() == MAX_DIGITS && rows[t].slacks.len() == MAX_DIGITS
}

proof fn lemma_family_rows_wf(e: EncodingView, f: FamilyView, n: int)
    ensures
        rows_wf(family_rows(e, f, n)),
    decreases n,
{
    if n > 0 {
        lemma_family_rows_wf(e, f, n - 1);
        let a = family_rows(e, f, n - 1);
        let b = Seq::new(share(e, f, n - 1) as nat, |t: int| x_row(e, f, n - 1, t));
        assert forall|t: int| 0 <= t < (a + b).len() implies (#[trigger] (a + b)[t]).ops.len()
            == NUM_OPERANDS && (a + b)[t].digits.len() == MAX_DIGITS && (a + b)[t].slacks.len()
            == MAX_DIGITS by {
            if t < a.len() {
                assert((a + b)[t] == a[t]);
            } else {
                assert((a + b)[t] == b[t - a.len()]);
            }
        }
    }
}

proof fn lemma_x_rows_wf(e: EncodingView, n: int)
    ensures
        rows_wf(x_rows(e, n)),
    decreases n,
{
    if n > 0 {
        lemma_x_rows_wf(e, n - 1);
        let f = families_of()[n - 1];
        lemma_family_rows_wf(e, f, e.opcode.len() as int);
        let a = x_rows(e, n - 1);
        let b = family_rows(e, f, e.opcode.len() as int);
        assert forall|t: int| 0 <= t < (a + b).len() implies (#[trigger] (a + b)[t]).ops.len()
            == NUM_OPERANDS && (a + b)[t].digits.len() == MAX_DIGITS && (a + b)[t].slacks.len()
            == MAX_DIGITS by {
            if t < a.len() {
                assert((a + b)[t] == a[t]);
            } else {
                assert((a + b)[t] == b[t - a.len()]);
            }
        }
    }
}

fn project(rows: &Vec<ExpansionRow>, part: Part, len: usize) -> (out: Vec<i64>)
    requires
        rows.len() <= len,
        part_ok(part),
        rows_wf(row_views(rows@)),
    ensures
        out.len() == len,
        forall|g: spec_fn(XRow) -> int|
            (forall|r: XRow| #[trigger] g(r) == part_value(part, r)) ==> numbers(out@)
                == #[trigger] filled_to(row_views(rows@).map_values(g), len as int, 0),
{
    let mut v: Vec<i64> = Vec::new();
    let ghost rv = row_views(rows@);
    for t in 0..rows.len()
        invariant
            rv == row_views(rows@),
            rows_wf(rv),
            part_ok(part),
            v.len() == t,
            forall|l: int| 0 <= l < t ==> (#[trigger] v[l]) as int == part_value(part, rv[l]),
    {
        let r = &rows[t];
        assert(rv[t as int] == r@);
        let x: i64 = match part {
            Part::Ptr => r.ptr,
            Part::Base => r.base,
            Part::Cr => r.cr,
            Part::Out => r.out,
            Part::Aux => r.aux,
            Part::Op(s) => {
                assert(r@.ops.len() == r.ops.len());
                r.ops[s]
            },
            Part::Digit(j) => {
                assert(r@.digits.len() == r.digits.len());
                r.digits[j]
            },
            Part::Slack(j) => {
                assert(r@.slacks.len() == r.slacks.len());
                r.slacks[j]
            },
        };
        v.push(x);
    }
    let out = padded(&v, len, 0);
    proof {
        assert forall|g: spec_fn(XRow) -> int|
            (forall|r: XRow| #[trigger] g(r) == part_value(part, r)) implies numbers(out@)
            == #[trigger] filled_to(rv.map_values(g), len as int, 0) by {
            assert forall|l: int| 0 <= l < rv.len() implies numbers(v@)[l] == rv.map_values(
                g,
            )[l] by {
                assert(g(rv[l]) == part_value(part, rv[l]));
            }
            assert(numbers(v@) =~= rv.map_values(g));
        }
    }
    out
}

fn project_pow(rows: &Vec<ExpansionRow>, len: usize) -> (out: MlPoly)
    requires
        rows.len() <= len,
    ensures
        out@ == filled_to(row_views(rows@).map_values(|r: XRow| r.pow), len as int, 0),
{
    let mut v: Vec<Fr> = Vec::new();
    let ghost rv = row_views(rows@);
    for t in 0..rows.len()
        invariant
            rv == row_views(rows@),
            v.len() == t,
            forall|l: int| 0 <= l < t ==> (#[trigger] v[l])@ == rv[l].pow,
    {
        assert(rv[t as int] == rows[t as int]@);
        v.push(rows[t].pow);
    }
    assert(values(v@) =~= rv.map_values(|r: XRow| r.pow));
    MlPoly(pad_to(v, len, Fr::zero()))
}

proof fn lemma_column_bounds(e: EncodingView)
    requires
        encoding_ready(e),
    ensures
        forall|i: int|
            0 <= i < row_out_column(e).len() ==> 0 <= #[trigger] row_out_column(e)[i]
                <= size_limit(),
        forall|i: int|
            0 <= i < lu_out_column(e).len() ==> 0 <= #[trigger] lu_out_column(e)[i]
                <= size_limit(),
{
    let q = e.opcode.len() as int;
    lemma_row_bounds(e, q);
}

proof fn lemma_row_bounds(e: EncodingView, n: int)
    requires
        encoding_ready(e),
        0 <= n <= e.opcode.len(),
    ensures
        forall|i: int|
            0 <= i < cons_rows(e, n).len() ==> 0 <= (#[trigger] cons_rows(e, n)[i]).out
                <= size_limit(),
        forall|i: int|
            0 <= i < lu_rows(e, n).len() ==> 0 <= (#[trigger] lu_rows(e, n)[i]).0 <= size_limit(),
    decreases n,
{
    if n > 0 {
        lemma_row_bounds(e, n - 1);
        lemma_ready(e, n - 1);
        let a = cons_rows(e, n - 1);
        let b = lu_rows(e, n - 1);
        assert forall|i: int| 0 <= i < cons_rows(e, n).len() implies 0 <= (
        #[trigger] cons_rows(e, n)[i]).out <= size_limit() by {
            if i < a.len() {
                assert(cons_rows(e, n)[i] == a[i]);
            } else {
                assert(cons_rows(e, n)[i] == cons_row(e, n - 1, i - a.len()));
            }
        }
        assert forall|i: int| 0 <= i < lu_rows(e, n).len() implies 0 <= (
        #[trigger] lu_rows(e, n)[i]).0 <= size_limit() by {
            if i < b.len() {
                assert(lu_rows(e, n)[i] == b[i]);
            } else {
                assert(lu_rows(e, n)[i] == lu_row(e, n - 1));
            }
        }
    }
}

/// The vectors of the instructions.
struct InstrPolys {
    sel: Vec<MlPoly>,
    opn: Vec<MlPoly>,
    ctr: Vec<MlPoly>,
    dctr: Vec<MlPoly>,
    base: Vec<MlPoly>,
    mult: Vec<MlPoly>,
}

fn instr_polys(
    enc: &ProgramEncoding,
    profile: &RegistrationProfile,
    Ghost(c): Ghost<CircuitView>,
) -> (out: InstrPolys)
    requires
        buildable(enc@, c, profile@),
    ensures
        out.sel.len() == NUM_OPCODES,
        out.opn.len() == NUM_OPERANDS,
        out.ctr.len() == NUM_COUNTERS,
        out.dctr.len() == NUM_COUNTERS,
        out.base.len() == NUM_FAMILIES,
        out.mult.len() == NUM_FAMILIES,
        forall|j: usize, xl: int, lr: int|
            j < NUM_OPCODES ==> out.sel[j as int]@ == #[trigger] witness_of(
                enc@,
                c,
                xl,
                lr,
                Tab::Sel(j),
            ),
        forall|j: usize, xl: int, lr: int|
            j < NUM_OPERANDS ==> out.opn[j as int]@ == #[trigger] witness_of(
                enc@,
                c,
                xl,
                lr,
                Tab::Opn(j),
            ),
        forall|j: usize, xl: int, lr: int|
            j < NUM_COUNTERS ==> out.ctr[j as int]@ == #[trigger] witness_of(
                enc@,
                c,
                xl,
                lr,
                Tab::Ctr(j),
            ),
        forall|j: usize, xl: int, lr: int|
            j < NUM_COUNTERS ==> out.dctr[j as int]@ == #[trigger] witness_of(
                enc@,
                c,
                xl,
                lr,
                Tab::DCtr(j),
            ),
        forall|j: usize, xl: int, lr: int|
            j < NUM_FAMILIES ==> out.base[j as int]@ == #[trigger] witness_of(
                enc@,
                c,
                xl,
                lr,
                Tab::Base(j),
            ),
        forall|j: usize, xl: int, lr: int|
            j < NUM_FAMILIES ==> out.mult[j as int]@ == #[trigger] witness_of(
                enc@,
                c,
                xl,
                lr,
                Tab::Mult(j),
            ),
{
    let ghost e = enc@;
    let q_len: usize = pad_len(enc.opcode.len() + 1);
    proof {
        assert forall|j: int| 0 <= j < NUM_OPCODES implies (#[trigger] enc.sel[j]).len()
            <= q_len by {
            assert(e.sel[j] == numbers(enc.sel[j]@));
        }
        assert forall|j: int| 0 <= j < NUM_OPERANDS implies (#[trigger] enc.opn[j]).len()
            <= q_len by {
            assert(e.opn[j] == numbers(enc.opn[j]@));
        }
        lemma_counter_words(e, enc.out@, enc.aux@, enc.cr@, enc.lr@);
        crate::registration::encode::lemma_counters(e, 0, e.opcode.len() as int);
    }
    let sel = sel_polys(&enc.sel, NUM_OPCODES, q_len);
    let opn = sel_polys(&enc.opn, NUM_OPERANDS, q_len);
    let mut ctr: Vec<MlPoly> = Vec::new();
    ctr.push(counter_poly(&enc.out, q_len, enc.aux_start));
    ctr.push(counter_poly(&enc.aux, q_len, enc.z_len));
    ctr.push(counter_poly(&enc.cr, q_len, enc.cons_line));
    ctr.push(counter_poly(&enc.lr, q_len, enc.lu_line));
    let dctr = delta_polys(enc, q_len);
    let (base, mult) = family_polys(enc, q_len);
    proof {
        assert forall|j: int| 0 <= j < NUM_OPCODES implies e.sel[j] == numbers(
            (#[trigger] enc.sel[j])@,
        ) by {}
        assert forall|j: int| 0 <= j < NUM_OPERANDS implies e.opn[j] == numbers(
            (#[trigger] enc.opn[j])@,
        ) by {}
    }
    InstrPolys { sel, opn, ctr, dctr, base, mult }
}

/// The counters of all instructions fit in memory.
proof fn lemma_counter_words(
    e: EncodingView,
    out: Seq<usize>,
    aux: Seq<usize>,
    cr: Seq<usize>,
    lr: Seq<usize>,
)
    requires
        encoding_ready(e),
        e.out == words(out),
        e.aux == words(aux),
        e.cr == words(cr),
        e.lr == words(lr),
    ensures
        forall|i: int| 0 <= i < out.len() ==> (#[trigger] out[i]) <= size_limit(),
        forall|i: int| 0 <= i < aux.len() ==> (#[trigger] aux[i]) <= size_limit(),
        forall|i: int| 0 <= i < cr.len() ==> (#[trigger] cr[i]) <= size_limit(),
        forall|i: int| 0 <= i < lr.len() ==> (#[trigger] lr[i]) <= size_limit(),
        e.aux_start <= size_limit(),
{
    assert forall|i: int| 0 <= i < out.len() implies (#[trigger] out[i]) <= size_limit() by {
        lemma_ready(e, i);
        assert(e.out[i] == out[i]);
    }
    assert forall|i: int| 0 <= i < aux.len() implies (#[trigger] aux[i]) <= size_limit() by {
        lemma_ready(e, i);
        assert(e.aux[i] == aux[i]);
    }
    assert forall|i: int| 0 <= i < cr.len() implies (#[trigger] cr[i]) <= size_limit() by {
        lemma_ready(e, i);
        assert(e.cr[i] == cr[i]);
    }
    assert forall|i: int| 0 <= i < lr.len() implies (#[trigger] lr[i]) <= size_limit() by {
        lemma_ready(e, i);
        assert(e.lr[i] == lr[i]);
    }
    crate::registration::encode::lemma_counters(e, 0, e.opcode.len() as int);
}

/// The vectors of the entries of the families.
struct XPolys {
    x_ptr: MlPoly,
    x_base: MlPoly,
    x_cr: MlPoly,
    x_out: MlPoly,
    x_aux: MlPoly,
    x_op: Vec<MlPoly>,
    x_pow: MlPoly,
    digits: Vec<Vec<i64>>,
    slacks: Vec<Vec<i64>>,
}

fn x_polys(enc: &ProgramEncoding, len: usize, Ghost(x_len): Ghost<int>) -> (out: XPolys)
    requires
        encoding_ready(enc@),
        x_len == cumulated(family_lens_of(enc@), NUM_FAMILIES as int),
        len == wide(x_len),
    ensures
        out.x_ptr@ == x_column(enc@, x_len, |r: XRow| r.ptr),
        out.x_base@ == x_column(enc@, x_len, |r: XRow| r.base),
        out.x_cr@ == x_column(enc@, x_len, |r: XRow| r.cr),
        out.x_out@ == x_column(enc@, x_len, |r: XRow| r.out),
        out.x_aux@ == x_column(enc@, x_len, |r: XRow| r.aux),
        out.x_pow@ == x_column(enc@, x_len, |r: XRow| r.pow),
        out.x_op.len() == NUM_OPERANDS,
        forall|s: int|
            0 <= s < NUM_OPERANDS ==> (#[trigger] out.x_op[s])@ == op_column(enc@, x_len, s),
        out.digits.len() == MAX_DIGITS,
        out.slacks.len() == MAX_DIGITS,
        forall|j: int|
            0 <= j < MAX_DIGITS ==> numbers((#[trigger] out.digits[j])@) == digit_column(enc@, x_len, j),
        forall|j: int|
            0 <= j < MAX_DIGITS ==> numbers((#[trigger] out.slacks[j])@) == left_column(enc@, x_len, j),
{
    let ghost e = enc@;
    let rows = expansion(enc);
    proof {
        lemma_x_rows_len(e, NUM_FAMILIES as int);
        lemma_x_rows_wf(e, NUM_FAMILIES as int);
        lemma_log2_ceil(x_len);
        assert(row_views(rows@).len() == rows.len());
    }
    let mut x_op: Vec<MlPoly> = Vec::new();
    for s in 0..NUM_OPERANDS
        invariant
            e == enc@,
            len == wide(x_len),
            rows.len() <= len,
            rows_wf(row_views(rows@)),
            row_views(rows@) == x_rows(e, NUM_FAMILIES as int),
            x_op.len() == s,
            forall|l: int|
                0 <= l < s ==> (#[trigger] x_op[l])@ == op_column(e, x_len, l),
    {
        let col = project(&rows, Part::Op(s), len);
        let ghost g = |r: XRow| r.ops[s as int];
        assert(forall|r: XRow| #[trigger] g(r) == part_value(Part::Op(s), r));
        assert(numbers(col@) == filled_to(row_views(rows@).map_values(g), len as int, 0));
        x_op.push(to_poly(&col));
    }
    let mut digits: Vec<Vec<i64>> = Vec::new();
    let mut slacks: Vec<Vec<i64>> = Vec::new();
    for j in 0..MAX_DIGITS
        invariant
            e == enc@,
            len == wide(x_len),
            rows.len() <= len,
            rows_wf(row_views(rows@)),
            row_views(rows@) == x_rows(e, NUM_FAMILIES as int),
            digits.len() == j,
            slacks.len() == j,
            forall|l: int|
                0 <= l < j ==> numbers((#[trigger] digits[l])@) == digit_column(e, x_len, l),
            forall|l: int|
                0 <= l < j ==> numbers((#[trigger] slacks[l])@) == left_column(e, x_len, l),
    {
        let d = project(&rows, Part::Digit(j), len);
        let s = project(&rows, Part::Slack(j), len);
        let ghost gd = |r: XRow| r.digits[j as int];
        let ghost gs = |r: XRow| r.slacks[j as int];
        assert(forall|r: XRow| #[trigger] gd(r) == part_value(Part::Digit(j), r));
        assert(forall|r: XRow| #[trigger] gs(r) == part_value(Part::Slack(j), r));
        assert(numbers(d@) == filled_to(row_views(rows@).map_values(gd), len as int, 0));
        assert(numbers(s@) == filled_to(row_views(rows@).map_values(gs), len as int, 0));
        digits.push(d);
        slacks.push(s);
    }
    let ptr = project(&rows, Part::Ptr, len);
    let base = project(&rows, Part::Base, len);
    let cr = project(&rows, Part::Cr, len);
    let out = project(&rows, Part::Out, len);
    let aux = project(&rows, Part::Aux, len);
    proof {
        let rv = row_views(rows@);
        let g1 = |r: XRow| r.ptr;
        assert(forall|r: XRow| #[trigger] g1(r) == part_value(Part::Ptr, r));
        assert(numbers(ptr@) == filled_to(rv.map_values(g1), len as int, 0));
        let g2 = |r: XRow| r.base;
        assert(forall|r: XRow| #[trigger] g2(r) == part_value(Part::Base, r));
        assert(numbers(base@) == filled_to(rv.map_values(g2), len as int, 0));
        let g3 = |r: XRow| r.cr;
        assert(forall|r: XRow| #[trigger] g3(r) == part_value(Part::Cr, r));
        assert(numbers(cr@) == filled_to(rv.map_values(g3), len as int, 0));
        let g4 = |r: XRow| r.out;
        assert(forall|r: XRow| #[trigger] g4(r) == part_value(Part::Out, r));
        assert(numbers(out@) == filled_to(rv.map_values(g4), len as int, 0));
        let g5 = |r: XRow| r.aux;
        assert(forall|r: XRow| #[trigger] g5(r) == part_value(Part::Aux, r));
        assert(numbers(aux@) == filled_to(rv.map_values(g5), len as int, 0));
    }
    XPolys {
        x_ptr: to_poly(&ptr),
        x_base: to_poly(&base),
        x_cr: to_poly(&cr),
        x_out: to_poly(&out),
        x_aux: to_poly(&aux),
        x_op,
        x_pow: project_pow(&rows, len),
        digits,
        slacks,
    }
}

fn to_polys(v: &Vec<Vec<i64>>) -> (out: Vec<MlPoly>)
    ensures
        out.len() == v.len(),
        forall|j: int| 0 <= j < v.len() ==> (#[trigger] out[j])@ == numbers(v[j]@),
{
    let mut out: Vec<MlPoly> = Vec::new();
    for j in 0..v.len()
        invariant
            out.len() == j,
            forall|l: int| 0 <= l < j ==> (#[trigger] out[l])@ == numbers(v[l]@),
    {
        out.push(to_poly(&v[j]));
    }
    out
}

/// What is known of the entries on the prefix columns: what is left between the
/// cells that they read and the end of the parameters, and which are in rows of
/// products and convolutions.
fn prefix_columns(
    row_idx: &Vec<usize>,
    col_idx: &Vec<usize>,
    weight_len: usize,
    is_lin: &Vec<i64>,
) -> (out: (Vec<i64>, Vec<i64>))
    requires
        weight_len <= size_limit(),
        row_idx.len() == col_idx.len(),
        forall|t: int| 0 <= t < row_idx.len() ==> (#[trigger] row_idx[t]) < is_lin.len(),
        forall|t: int| 0 <= t < col_idx.len() ==> (#[trigger] col_idx[t]) <= 2 * size_limit(),
    ensures
        out.0.len() == row_idx.len(),
        out.1.len() == row_idx.len(),
        forall|t: int|
            0 <= t < row_idx.len() ==> (#[trigger] out.0[t]) as int == weight_len - 1 - col_idx[t],
        forall|t: int|
            0 <= t < row_idx.len() ==> (#[trigger] out.1[t]) == is_lin[row_idx[t] as int],
{
    let mut a: Vec<i64> = Vec::new();
    let mut b: Vec<i64> = Vec::new();
    for t in 0..row_idx.len()
        invariant
            weight_len <= size_limit(),
            row_idx.len() == col_idx.len(),
            forall|t: int| 0 <= t < row_idx.len() ==> (#[trigger] row_idx[t]) < is_lin.len(),
            forall|t: int| 0 <= t < col_idx.len() ==> (#[trigger] col_idx[t]) <= 2 * size_limit(),
            a.len() == t,
            b.len() == t,
            forall|l: int|
                0 <= l < t ==> (#[trigger] a[l]) as int == weight_len - 1 - col_idx[l],
            forall|l: int| 0 <= l < t ==> (#[trigger] b[l]) == is_lin[row_idx[l] as int],
    {
        assert(row_idx[t as int] < is_lin.len());
        assert(col_idx[t as int] <= 2 * size_limit());
        a.push(weight_len as i64 - 1 - col_idx[t] as i64);
        b.push(is_lin[row_idx[t]]);
    }
    (a, b)
}

impl ProgramWitness {
    /// The vectors for a program and its circuit, unless something that has to be
    /// left is not within the range.
    #[verifier::rlimit(80)]
    pub fn build(
        enc: &ProgramEncoding,
        circuit: &Circuit,
        profile: &RegistrationProfile,
    ) -> (out: Option<ProgramWitness>)
        requires
            buildable(enc@, circuit@, profile@),
        ensures
            out is Some <==> slacks_in_range(
                enc@,
                circuit@,
                profile@.x_len,
                pow2(profile@.log_range as nat) as int,
            ),
            out is Some ==> out->0.holds(
                enc@,
                circuit@,
                profile@.x_len,
                profile@.log_range,
            ),
    {
        let ghost e = enc@;
        let ghost c = circuit@;
        let ghost p = profile@;
        let polys = sparse_polys(circuit);
        let sup = &polys.supergroups[0];
        let pre = &polys.b_pre;
        let ghost g = suffix_group(c);
        let ghost h = prefix_group(c);
        proof {
            lemma_entry_rows(c);
            crate::sparse::lemma_suffix_group(c, 1);
            crate::sparse::lemma_prefix_group(c, 1);
            reveal_with_fuel(cumulated, 6);
            lemma_rows_len(e, e.opcode.len() as int);
            lemma_column_bounds(e);
            lemma_log2_ceil(e.cons_line);
            lemma_log2_ceil(e.lu_line);
            crate::sparse::lemma_table_size(e.z_len + 2);
            crate::sparse::lemma_table_size(c.weight_len);
            crate::registration::encode::lemma_counters(e, 0, e.opcode.len() as int);
            assert(g.row.len() == sup.row_idx.len());
            assert(h.row.len() == pre.row_idx.len());
            assert(h.col.len() == pre.col_idx.len());
            lemma_prefix_rows(c);
        }
        let cons_len: usize = pad_len(profile.cons_line);
        let lu_len: usize = pad_len(profile.lu_line);
        let x_len: usize = pad_len(profile.x_len);
        let instr = instr_polys(enc, profile, Ghost(c));
        let cons = ConsColumns::new(enc);
        let lu = lookup_columns(enc);
        let ghost rows = cons_rows(e, e.opcode.len() as int);
        let ghost lrows = lu_rows(e, e.opcode.len() as int);
        proof {
            assert(numbers(cons.out@).len() == cons.out.len());
            assert(numbers(cons.ptr@).len() == cons.ptr.len());
            assert(numbers(cons.cr@).len() == cons.cr.len());
            assert(numbers(cons.dcr@).len() == cons.dcr.len());
            assert(numbers(cons.lin@).len() == cons.lin.len());
            assert(numbers(cons.lo@).len() == cons.lo.len());
            assert(numbers(cons.hi@).len() == cons.hi.len());
            assert(numbers(lu.0@).len() == lu.0.len());
            assert(numbers(lu.1@).len() == lu.1.len());
        }
        let row_out = padded(&cons.out, cons_len, 0);
        let is_lin = padded(&cons.lin, cons_len, 0);
        let lo = padded(&cons.lo, cons_len, 0);
        let hi = padded(&cons.hi, cons_len, 0);
        let lu_out = padded(&lu.0, lu_len, 0);
        proof {
            assert(looked_up(e, c, row_out@, is_lin@, lu_out@)) by {
                assert forall|i: int| 0 <= i < row_out.len() implies 0 <= #[trigger] row_out[i]
                    <= size_limit() by {
                    assert(row_out_column(e)[i] == row_out[i]);
                }
                assert forall|i: int| 0 <= i < lu_out.len() implies 0 <= #[trigger] lu_out[i]
                    <= size_limit() by {
                    assert(lu_out_column(e)[i] == lu_out[i]);
                }
            }
        }
        let ent = entry_columns(
            &sup.row_idx,
            &sup.col_idx,
            profile,
            &row_out,
            &is_lin,
            &lu_out,
            Ghost(e),
            Ghost(c),
        );
        let entry_len: usize = pad_len(sup.row_idx.len());
        let slack = padded(&ent.slack, entry_len, 0);
        let (_, c_hi) = profile.segment(2);
        let (_, d_hi) = profile.segment(3);
        let flag: usize = profile.row_flag;
        let cons_idx = part_of(&sup.row_idx, 0, c_hi, 0);
        proof {
            assert(indices(sup.row_idx@) == g.row);
            assert(indices(cons_idx@) =~= g.row.take(after(c, 2)));
            assert forall|t: int| c_hi <= t < d_hi implies flag <= #[trigger] sup.row_idx[t] by {
                assert(g.row[t] == sup.row_idx[t]);
            }
        }
        let lu_idx = part_of(&sup.row_idx, c_hi, d_hi, flag);
        let ghost lu_want = Seq::new(
            (after(c, 3) - after(c, 2)) as nat,
            |k: int| lookup_row_of(c, after(c, 2) + k),
        );
        proof {
            assert(indices(lu_idx@) =~= lu_want) by {
                assert forall|k: int| 0 <= k < lu_want.len() implies indices(lu_idx@)[k]
                    == lu_want[k] by {
                    assert(g.row[c_hi + k] == sup.row_idx[c_hi + k]);
                }
            }
            assert(below(indices(lu_idx@), lu_len as int)) by {
                assert forall|k: int| 0 <= k < lu_want.len() implies 0 <= #[trigger] lu_want[k]
                    < lu_len by {
                    assert(flag <= g.row[c_hi + k] < flag + c.d.len());
                }
            }
            assert(below(indices(cons_idx@), cons_len as int));
        }
        let cnt_c = count_exec(&cons_idx, cons_len);
        let cnt_l = count_exec(&lu_idx, lu_len);
        proof {
            assert(indices(pre.row_idx@) == h.row);
            assert(indices(pre.col_idx@) == h.col);
            assert forall|t: int| 0 <= t < pre.row_idx.len() implies (#[trigger] pre.row_idx[t])
                < is_lin.len() by {
                assert(h.row[t] == pre.row_idx[t]);
            }
            assert forall|t: int| 0 <= t < pre.col_idx.len() implies (#[trigger] pre.col_idx[t])
                <= 2 * size_limit() by {
                assert(h.col[t] == pre.col_idx[t]);
            }
            assert(below(indices(pre.row_idx@), cons_len as int));
        }
        let b_cnt = count_exec(&pre.row_idx, cons_len);
        let (left, lin) = prefix_columns(&pre.row_idx, &pre.col_idx, profile.weight_len, &is_lin);
        let b_pre_len: usize = pad_len(pre.row_idx.len());
        let diff_pre = padded(&left, b_pre_len, 0);
        let mask_pre = padded(&lin, b_pre_len, 0);
        proof {
            lemma_prefix_columns(e, c, left@, lin@, is_lin@, pre.row_idx@, pre.col_idx@);
            lemma_entry_polys(e, c, ent);
        }
        let x = x_polys(enc, x_len, Ghost(p.x_len));
        let mut all: Vec<i64> = Vec::new();
        extend(&mut all, &slack);
        extend(&mut all, &diff_pre);
        extend(&mut all, &lo);
        extend(&mut all, &hi);
        extend(&mut all, &x.digits[0]);
        extend(&mut all, &x.digits[1]);
        extend(&mut all, &x.digits[2]);
        extend(&mut all, &x.digits[3]);
        extend(&mut all, &x.slacks[0]);
        extend(&mut all, &x.slacks[1]);
        extend(&mut all, &x.slacks[2]);
        extend(&mut all, &x.slacks[3]);
        proof {
            assert(numbers(all@) =~= slacks_of(e, c, p.x_len));
        }
        let range_len: usize = two_pow(profile.log_range);
        let counted = tally(&all, range_len);
        match counted {
            None => None,
            Some(range_cnt) => {
                let w = ProgramWitness {
                    sel: instr.sel,
                    opn: instr.opn,
                    ctr: instr.ctr,
                    dctr: instr.dctr,
                    base: instr.base,
                    mult: instr.mult,
                    row_out: to_poly(&row_out),
                    row_ptr: column_poly(&cons.ptr, cons_len),
                    row_cr: column_poly(&cons.cr, cons_len),
                    row_dcr: column_poly(&cons.dcr, cons_len),
                    is_lin: to_poly(&is_lin),
                    row_slack_lo: to_poly(&lo),
                    row_slack_hi: to_poly(&hi),
                    cnt_c: MlPoly(cnt_c),
                    b_cnt: MlPoly(b_cnt),
                    lu_out: to_poly(&lu_out),
                    is_lookup: column_poly(&lu.1, lu_len),
                    cnt_l: MlPoly(cnt_l),
                    max_read: column_poly(&ent.limit, entry_len),
                    diff: to_poly(&slack),
                    ent_lin: column_poly(&ent.linear, entry_len),
                    mask_a: column_poly(&ent.mask_a, entry_len),
                    mask_b: column_poly(&ent.mask_b, entry_len),
                    mask_c: column_poly(&ent.mask_c, entry_len),
                    diff_pre: to_poly(&diff_pre),
                    b_ent_lin: to_poly(&mask_pre),
                    mask_pre: to_poly(&mask_pre),
                    x_ptr: x.x_ptr,
                    x_base: x.x_base,
                    x_cr: x.x_cr,
                    x_out: x.x_out,
                    x_aux: x.x_aux,
                    x_op: x.x_op,
                    x_digit: to_polys(&x.digits),
                    x_digit_slack: to_polys(&x.slacks),
                    x_pow: x.x_pow,
                    range_cnt,
                };
                proof {
                    assert forall|t: Tab| of_program(t) implies (#[trigger] w.tab(t))@
                        == witness_of(e, c, p.x_len, p.log_range, t) by {
                        match t {
                            Tab::XOp(s) => {
                                assert(w.x_op[s as int]@ == op_column(e, p.x_len, s as int));
                            },
                            Tab::XDigit(j) => {
                                assert(w.x_digit[j as int]@ == numbers(x.digits[j as int]@));
                            },
                            Tab::XDigitSlack(j) => {
                                assert(w.x_digit_slack[j as int]@ == numbers(x.slacks[j as int]@));
                            },
                            _ => {},
                        }
                    }
                }
                Some(w)
            },
        }
    }
}

/// The rows of the entries on the prefix columns are rows of their matrix.
pub proof fn lemma_prefix_rows(c: CircuitView)
    requires
        circuit_fits(c, 1),
    ensures
        forall|t: int|
            0 <= t < prefix_group(c).row.len() ==> 0 <= #[trigger] prefix_group(c).row[t] < wide(
                c.a.len() as int,
            ),
        forall|t: int|
            0 <= t < prefix_group(c).col.len() ==> 0 <= #[trigger] prefix_group(c).col[t] < wide(
                c.weight_len,
            ),
{
    crate::sparse::lemma_prefix_group(c, 1);
}

proof fn lemma_prefix_columns(
    e: EncodingView,
    c: CircuitView,
    left: Seq<i64>,
    lin: Seq<i64>,
    is_lin: Seq<i64>,
    row_idx: Seq<usize>,
    col_idx: Seq<usize>,
)
    requires
        numbers(is_lin) == is_lin_column(e),
        indices(row_idx) == prefix_group(c).row,
        indices(col_idx) == prefix_group(c).col,
        row_idx.len() == col_idx.len(),
        left.len() == row_idx.len(),
        lin.len() == row_idx.len(),
        forall|t: int| 0 <= t < row_idx.len() ==> (#[trigger] row_idx[t]) < is_lin.len(),
        forall|t: int|
            0 <= t < row_idx.len() ==> (#[trigger] left[t]) as int == e.weight_len - 1 - col_idx[t],
        forall|t: int|
            0 <= t < row_idx.len() ==> (#[trigger] lin[t]) == is_lin[row_idx[t] as int],
    ensures
        filled_to(numbers(left), wide(row_idx.len() as int), 0) == prefix_column(
            c,
            |t: int| e.weight_len - 1 - prefix_group(c).col[t],
        ),
        filled_to(numbers(lin), wide(row_idx.len() as int), 0) == prefix_column(
            c,
            |t: int| is_lin_column(e)[prefix_group(c).row[t]],
        ),
{
    let h = prefix_group(c);
    let n = row_idx.len() as int;
    assert(h.row.len() == n);
    let g1 = |t: int| e.weight_len - 1 - h.col[t];
    let g2 = |t: int| is_lin_column(e)[h.row[t]];
    assert forall|t: int| 0 <= t < n implies #[trigger] numbers(left)[t] == g1(t) by {
        assert(h.col[t] == col_idx[t]);
        assert(left[t] as int == e.weight_len - 1 - col_idx[t]);
    }
    assert forall|t: int| 0 <= t < n implies #[trigger] numbers(lin)[t] == g2(t) by {
        assert(h.row[t] == row_idx[t]);
        assert(lin[t] == is_lin[row_idx[t] as int]);
        assert(numbers(is_lin)[row_idx[t] as int] == is_lin[row_idx[t] as int]);
    }
    assert(numbers(left) =~= Seq::new(n as nat, |t: int| g1(t)));
    assert(numbers(lin) =~= Seq::new(n as nat, |t: int| g2(t)));
}

proof fn lemma_entry_polys(e: EncodingView, c: CircuitView, ent: EntryColumns)
    requires
        ent.holds(e, c, suffix_group(c).row.len() as int),
    ensures
        ({
            let len = wide(suffix_group(c).row.len() as int);
            &&& filled_to(numbers(ent.limit@), len, 0) == entry_column(
                c,
                |t: int| limit_at(e, c, t),
            )
            &&& filled_to(numbers(ent.slack@), len, 0) == entry_column(
                c,
                |t: int| slack_at(e, c, t),
            )
            &&& filled_to(numbers(ent.linear@), len, 0) == entry_column(
                c,
                |t: int| linear_at(e, c, t),
            )
            &&& filled_to(numbers(ent.mask_a@), len, 0) == mask_column(e, c, 0, after(c, 0))
            &&& filled_to(numbers(ent.mask_b@), len, 0) == mask_column(
                e,
                c,
                after(c, 0),
                after(c, 1),
            )
            &&& filled_to(numbers(ent.mask_c@), len, 0) == mask_column(
                e,
                c,
                after(c, 1),
                after(c, 2),
            )
        }),
{
    let n = suffix_group(c).row.len();
    let g1 = |t: int| limit_at(e, c, t);
    let g2 = |t: int| slack_at(e, c, t);
    let g3 = |t: int| linear_at(e, c, t);
    assert(numbers(ent.limit@) =~= Seq::new(n, |t: int| g1(t)));
    assert(numbers(ent.slack@) =~= Seq::new(n, |t: int| g2(t)));
    assert(numbers(ent.linear@) =~= Seq::new(n, |t: int| g3(t)));
    lemma_mask(e, c, 0, after(c, 0), ent.mask_a@);
    lemma_mask(e, c, after(c, 0), after(c, 1), ent.mask_b@);
    lemma_mask(e, c, after(c, 1), after(c, 2), ent.mask_c@);
}

proof fn lemma_mask(e: EncodingView, c: CircuitView, lo: int, hi: int, v: Seq<i64>)
    requires
        v.len() == suffix_group(c).row.len(),
        forall|t: int| 0 <= t < v.len() ==> (#[trigger] v[t]) as int == masked(e, c, lo, hi, t),
    ensures
        filled_to(numbers(v), wide(suffix_group(c).row.len() as int), 0) == mask_column(
            e,
            c,
            lo,
            hi,
        ),
{
    let g = |t: int|
        if lo <= t < hi {
            linear_at(e, c, t)
        } else {
            0
        };
    assert forall|t: int| 0 <= t < v.len() implies #[trigger] numbers(v)[t] == g(t) by {
        assert(v[t] as int == masked(e, c, lo, hi, t));
    }
    assert(numbers(v) =~= Seq::new(v.len(), |t: int| g(t)));
}

/// The commitments to the vectors of a registration.
#[derive(Clone)]
pub struct ProgramCommits {
    pub sel: Vec<MkzgCommit>,
    pub opn: Vec<MkzgCommit>,
    pub ctr: Vec<MkzgCommit>,
    pub dctr: Vec<MkzgCommit>,
    pub base: Vec<MkzgCommit>,
    pub mult: Vec<MkzgCommit>,
    pub row_out: MkzgCommit,
    pub row_ptr: MkzgCommit,
    pub row_cr: MkzgCommit,
    pub row_dcr: MkzgCommit,
    pub is_lin: MkzgCommit,
    pub row_slack_lo: MkzgCommit,
    pub row_slack_hi: MkzgCommit,
    pub cnt_c: MkzgCommit,
    pub b_cnt: MkzgCommit,
    pub lu_out: MkzgCommit,
    pub is_lookup: MkzgCommit,
    pub cnt_l: MkzgCommit,
    pub max_read: MkzgCommit,
    pub diff: MkzgCommit,
    pub ent_lin: MkzgCommit,
    pub mask_a: MkzgCommit,
    pub mask_b: MkzgCommit,
    pub mask_c: MkzgCommit,
    pub diff_pre: MkzgCommit,
    pub b_ent_lin: MkzgCommit,
    pub mask_pre: MkzgCommit,
    pub x_ptr: MkzgCommit,
    pub x_base: MkzgCommit,
    pub x_cr: MkzgCommit,
    pub x_out: MkzgCommit,
    pub x_aux: MkzgCommit,
    pub x_op: Vec<MkzgCommit>,
    pub x_digit: Vec<MkzgCommit>,
    pub x_digit_slack: Vec<MkzgCommit>,
    pub x_pow: MkzgCommit,
    pub range_cnt: MkzgCommit,
}

impl ProgramCommits {
    /// The commitment with the given name.
    pub open spec fn tab(&self, t: Tab) -> MkzgCommit {
        match t {
            Tab::Sel(j) => self.sel[j as int],
            Tab::Opn(s) => self.opn[s as int],
            Tab::Ctr(x) => self.ctr[x as int],
            Tab::DCtr(x) => self.dctr[x as int],
            Tab::Base(f) => self.base[f as int],
            Tab::Mult(f) => self.mult[f as int],
            Tab::RowOut => self.row_out,
            Tab::RowPtr => self.row_ptr,
            Tab::RowCr => self.row_cr,
            Tab::RowDcr => self.row_dcr,
            Tab::IsLin => self.is_lin,
            Tab::RowSlackLo => self.row_slack_lo,
            Tab::RowSlackHi => self.row_slack_hi,
            Tab::BCnt => self.b_cnt,
            Tab::EntLin => self.ent_lin,
            Tab::MaskA => self.mask_a,
            Tab::MaskB => self.mask_b,
            Tab::MaskC => self.mask_c,
            Tab::BEntLin => self.b_ent_lin,
            Tab::MaskPre => self.mask_pre,
            Tab::XPtr => self.x_ptr,
            Tab::XBase => self.x_base,
            Tab::XCr => self.x_cr,
            Tab::XOut => self.x_out,
            Tab::XAux => self.x_aux,
            Tab::XOp(s) => self.x_op[s as int],
            Tab::XDigit(j) => self.x_digit[j as int],
            Tab::XDigitSlack(j) => self.x_digit_slack[j as int],
            Tab::XPow => self.x_pow,
            Tab::CntC => self.cnt_c,
            Tab::LuOut => self.lu_out,
            Tab::IsLookup => self.is_lookup,
            Tab::CntL => self.cnt_l,
            Tab::MaxRead => self.max_read,
            Tab::Diff => self.diff,
            Tab::DiffPre => self.diff_pre,
            _ => self.range_cnt,
        }
    }

    /// There are as many commitments as there have to be.
    pub open spec fn shaped(&self) -> bool {
        &&& self.sel.len() == NUM_OPCODES
        &&& self.opn.len() == NUM_OPERANDS
        &&& self.ctr.len() == NUM_COUNTERS
        &&& self.dctr.len() == NUM_COUNTERS
        &&& self.base.len() == NUM_FAMILIES
        &&& self.mult.len() == NUM_FAMILIES
        &&& self.x_op.len() == NUM_OPERANDS
        &&& self.x_digit.len() == MAX_DIGITS
        &&& self.x_digit_slack.len() == MAX_DIGITS
    }

    /// Whether there are as many commitments as there have to be.
    pub fn is_shaped(&self) -> (out: bool)
        ensures
            out == self.shaped(),
    {
        self.sel.len() == NUM_OPCODES && self.opn.len() == NUM_OPERANDS && self.ctr.len()
            == NUM_COUNTERS && self.dctr.len() == NUM_COUNTERS && self.base.len() == NUM_FAMILIES
            && self.mult.len() == NUM_FAMILIES && self.x_op.len() == NUM_OPERANDS
            && self.x_digit.len() == MAX_DIGITS && self.x_digit_slack.len() == MAX_DIGITS
    }

    /// The commitment with the given name.
    pub fn commit(&self, t: Tab) -> (out: &MkzgCommit)
        requires
            self.shaped(),
            tab_ok(t),
        ensures
            *out == self.tab(t),
    {
        match t {
            Tab::Sel(j) => &self.sel[j],
            Tab::Opn(s) => &self.opn[s],
            Tab::Ctr(x) => &self.ctr[x],
            Tab::DCtr(x) => &self.dctr[x],
            Tab::Base(f) => &self.base[f],
            Tab::Mult(f) => &self.mult[f],
            Tab::RowOut => &self.row_out,
            Tab::RowPtr => &self.row_ptr,
            Tab::RowCr => &self.row_cr,
            Tab::RowDcr => &self.row_dcr,
            Tab::IsLin => &self.is_lin,
            Tab::RowSlackLo => &self.row_slack_lo,
            Tab::RowSlackHi => &self.row_slack_hi,
            Tab::BCnt => &self.b_cnt,
            Tab::EntLin => &self.ent_lin,
            Tab::MaskA => &self.mask_a,
            Tab::MaskB => &self.mask_b,
            Tab::MaskC => &self.mask_c,
            Tab::BEntLin => &self.b_ent_lin,
            Tab::MaskPre => &self.mask_pre,
            Tab::XPtr => &self.x_ptr,
            Tab::XBase => &self.x_base,
            Tab::XCr => &self.x_cr,
            Tab::XOut => &self.x_out,
            Tab::XAux => &self.x_aux,
            Tab::XOp(s) => &self.x_op[s],
            Tab::XDigit(j) => &self.x_digit[j],
            Tab::XDigitSlack(j) => &self.x_digit_slack[j],
            Tab::XPow => &self.x_pow,
            Tab::CntC => &self.cnt_c,
            Tab::LuOut => &self.lu_out,
            Tab::IsLookup => &self.is_lookup,
            Tab::CntL => &self.cnt_l,
            Tab::MaxRead => &self.max_read,
            Tab::Diff => &self.diff,
            Tab::DiffPre => &self.diff_pre,
            _ => &self.range_cnt,
        }
    }
}

/// The longest vector that can be committed to with some parameters.
spec fn committable(srs: MkzgProveParams, poly: MlPoly) -> bool {
    srs@.len() > 0 && poly@.len() + srs@.len() <= usize::MAX
}

fn commit_one(srs: &MkzgProveParams, poly: &MlPoly) -> (out: MkzgCommit)
    requires
        committable(*srs, *poly),
    ensures
        out@ == commit_of(srs@, poly@),
{
    assert(poly@.len() == poly.0.len());
    Mkzg::commit(srs, poly)
}

fn commit_all(srs: &MkzgProveParams, polys: &Vec<MlPoly>) -> (out: Vec<MkzgCommit>)
    requires
        forall|j: int| 0 <= j < polys.len() ==> committable(*srs, #[trigger] polys[j]),
    ensures
        out.len() == polys.len(),
        forall|j: int| 0 <= j < polys.len() ==> (#[trigger] out[j])@ == commit_of(srs@, polys[j]@),
{
    let mut out: Vec<MkzgCommit> = Vec::new();
    for j in 0..polys.len()
        invariant
            forall|j: int| 0 <= j < polys.len() ==> committable(*srs, #[trigger] polys[j]),
            out.len() == j,
            forall|l: int| 0 <= l < j ==> (#[trigger] out[l])@ == commit_of(srs@, polys[l]@),
    {
        assert(committable(*srs, polys[j as int]));
        out.push(commit_one(srs, &polys[j]));
    }
    out
}

impl ProgramWitness {
    /// Commits to all the vectors.
    pub fn commit(&self, kzg_pp: &MkzgProveParams) -> (out: ProgramCommits)
        requires
            self.shaped(),
            kzg_pp@.len() > 0,
            forall|t: Tab|
                of_program(t) ==> (#[trigger] self.tab(t))@.len() + kzg_pp@.len() <= usize::MAX,
        ensures
            out.shaped(),
            forall|t: Tab|
                of_program(t) ==> (#[trigger] out.tab(t))@ == commit_of(kzg_pp@, self.tab(t)@),
    {
        proof {
            assert forall|j: int| 0 <= j < NUM_OPCODES implies committable(
                *kzg_pp,
                #[trigger] self.sel[j],
            ) by {
                assert(of_program(Tab::Sel(j as usize)));
                assert(self.tab(Tab::Sel(j as usize))@.len() + kzg_pp@.len() <= usize::MAX);
            }
            assert forall|j: int| 0 <= j < NUM_OPERANDS implies committable(
                *kzg_pp,
                #[trigger] self.opn[j],
            ) by {
                assert(self.tab(Tab::Opn(j as usize))@.len() + kzg_pp@.len() <= usize::MAX);
            }
            assert forall|j: int| 0 <= j < NUM_COUNTERS implies committable(
                *kzg_pp,
                #[trigger] self.ctr[j],
            ) by {
                assert(self.tab(Tab::Ctr(j as usize))@.len() + kzg_pp@.len() <= usize::MAX);
            }
            assert forall|j: int| 0 <= j < NUM_COUNTERS implies committable(
                *kzg_pp,
                #[trigger] self.dctr[j],
            ) by {
                assert(self.tab(Tab::DCtr(j as usize))@.len() + kzg_pp@.len() <= usize::MAX);
            }
            assert forall|j: int| 0 <= j < NUM_FAMILIES implies committable(
                *kzg_pp,
                #[trigger] self.base[j],
            ) by {
                assert(self.tab(Tab::Base(j as usize))@.len() + kzg_pp@.len() <= usize::MAX);
            }
            assert forall|j: int| 0 <= j < NUM_FAMILIES implies committable(
                *kzg_pp,
                #[trigger] self.mult[j],
            ) by {
                assert(self.tab(Tab::Mult(j as usize))@.len() + kzg_pp@.len() <= usize::MAX);
            }
            assert forall|j: int| 0 <= j < NUM_OPERANDS implies committable(
                *kzg_pp,
                #[trigger] self.x_op[j],
            ) by {
                assert(self.tab(Tab::XOp(j as usize))@.len() + kzg_pp@.len() <= usize::MAX);
            }
            assert forall|j: int| 0 <= j < MAX_DIGITS implies committable(
                *kzg_pp,
                #[trigger] self.x_digit[j],
            ) by {
                assert(self.tab(Tab::XDigit(j as usize))@.len() + kzg_pp@.len() <= usize::MAX);
            }
            assert forall|j: int| 0 <= j < MAX_DIGITS implies committable(
                *kzg_pp,
                #[trigger] self.x_digit_slack[j],
            ) by {
                assert(self.tab(Tab::XDigitSlack(j as usize))@.len() + kzg_pp@.len()
                    <= usize::MAX);
            }
            assert(self.tab(Tab::RowOut)@.len() + kzg_pp@.len() <= usize::MAX);
            assert(self.tab(Tab::RowPtr)@.len() + kzg_pp@.len() <= usize::MAX);
            assert(self.tab(Tab::RowCr)@.len() + kzg_pp@.len() <= usize::MAX);
            assert(self.tab(Tab::RowDcr)@.len() + kzg_pp@.len() <= usize::MAX);
            assert(self.tab(Tab::IsLin)@.len() + kzg_pp@.len() <= usize::MAX);
            assert(self.tab(Tab::RowSlackLo)@.len() + kzg_pp@.len() <= usize::MAX);
            assert(self.tab(Tab::RowSlackHi)@.len() + kzg_pp@.len() <= usize::MAX);
            assert(self.tab(Tab::CntC)@.len() + kzg_pp@.len() <= usize::MAX);
            assert(self.tab(Tab::BCnt)@.len() + kzg_pp@.len() <= usize::MAX);
            assert(self.tab(Tab::LuOut)@.len() + kzg_pp@.len() <= usize::MAX);
            assert(self.tab(Tab::IsLookup)@.len() + kzg_pp@.len() <= usize::MAX);
            assert(self.tab(Tab::CntL)@.len() + kzg_pp@.len() <= usize::MAX);
            assert(self.tab(Tab::MaxRead)@.len() + kzg_pp@.len() <= usize::MAX);
            assert(self.tab(Tab::Diff)@.len() + kzg_pp@.len() <= usize::MAX);
            assert(self.tab(Tab::EntLin)@.len() + kzg_pp@.len() <= usize::MAX);
            assert(self.tab(Tab::MaskA)@.len() + kzg_pp@.len() <= usize::MAX);
            assert(self.tab(Tab::MaskB)@.len() + kzg_pp@.len() <= usize::MAX);
            assert(self.tab(Tab::MaskC)@.len() + kzg_pp@.len() <= usize::MAX);
            assert(self.tab(Tab::DiffPre)@.len() + kzg_pp@.len() <= usize::MAX);
            assert(self.tab(Tab::BEntLin)@.len() + kzg_pp@.len() <= usize::MAX);
            assert(self.tab(Tab::MaskPre)@.len() + kzg_pp@.len() <= usize::MAX);
            assert(self.tab(Tab::XPtr)@.len() + kzg_pp@.len() <= usize::MAX);
            assert(self.tab(Tab::XBase)@.len() + kzg_pp@.len() <= usize::MAX);
            assert(self.tab(Tab::XCr)@.len() + kzg_pp@.len() <= usize::MAX);
            assert(self.tab(Tab::XOut)@.len() + kzg_pp@.len() <= usize::MAX);
            assert(self.tab(Tab::XAux)@.len() + kzg_pp@.len() <= usize::MAX);
            assert(self.tab(Tab::XPow)@.len() + kzg_pp@.len() <= usize::MAX);
            assert(self.tab(Tab::RangeCnt)@.len() + kzg_pp@.len() <= usize::MAX);
        }
        let out = ProgramCommits {
            sel: commit_all(kzg_pp, &self.sel),
            opn: commit_all(kzg_pp, &self.opn),
            ctr: commit_all(kzg_pp, &self.ctr),
            dctr: commit_all(kzg_pp, &self.dctr),
            base: commit_all(kzg_pp, &self.base),
            mult: commit_all(kzg_pp, &self.mult),
            row_out: commit_one(kzg_pp, &self.row_out),
            row_ptr: commit_one(kzg_pp, &self.row_ptr),
            row_cr: commit_one(kzg_pp, &self.row_cr),
            row_dcr: commit_one(kzg_pp, &self.row_dcr),
            is_lin: commit_one(kzg_pp, &self.is_lin),
            row_slack_lo: commit_one(kzg_pp, &self.row_slack_lo),
            row_slack_hi: commit_one(kzg_pp, &self.row_slack_hi),
            cnt_c: commit_one(kzg_pp, &self.cnt_c),
            b_cnt: commit_one(kzg_pp, &self.b_cnt),
            lu_out: commit_one(kzg_pp, &self.lu_out),
            is_lookup: commit_one(kzg_pp, &self.is_lookup),
            cnt_l: commit_one(kzg_pp, &self.cnt_l),
            max_read: commit_one(kzg_pp, &self.max_read),
            diff: commit_one(kzg_pp, &self.diff),
            ent_lin: commit_one(kzg_pp, &self.ent_lin),
            mask_a: commit_one(kzg_pp, &self.mask_a),
            mask_b: commit_one(kzg_pp, &self.mask_b),
            mask_c: commit_one(kzg_pp, &self.mask_c),
            diff_pre: commit_one(kzg_pp, &self.diff_pre),
            b_ent_lin: commit_one(kzg_pp, &self.b_ent_lin),
            mask_pre: commit_one(kzg_pp, &self.mask_pre),
            x_ptr: commit_one(kzg_pp, &self.x_ptr),
            x_base: commit_one(kzg_pp, &self.x_base),
            x_cr: commit_one(kzg_pp, &self.x_cr),
            x_out: commit_one(kzg_pp, &self.x_out),
            x_aux: commit_one(kzg_pp, &self.x_aux),
            x_op: commit_all(kzg_pp, &self.x_op),
            x_digit: commit_all(kzg_pp, &self.x_digit),
            x_digit_slack: commit_all(kzg_pp, &self.x_digit_slack),
            x_pow: commit_one(kzg_pp, &self.x_pow),
            range_cnt: commit_one(kzg_pp, &self.range_cnt),
        };
        out
    }
}

/// The number of variables of a vector.
pub open spec fn tab_log(p: ProfileView, t: Tab) -> int {
    match t {
        Tab::Sel(_) => log2_ceil(p.instr_count + 1) as int,
        Tab::Opn(_) => log2_ceil(p.instr_count + 1) as int,
        Tab::Ctr(_) => log2_ceil(p.instr_count + 1) as int,
        Tab::DCtr(_) => log2_ceil(p.instr_count + 1) as int,
        Tab::Base(_) => log2_ceil(p.instr_count + 1) as int,
        Tab::Mult(_) => log2_ceil(p.instr_count + 1) as int,
        Tab::RowOut => log2_ceil(p.cons_line) as int,
        Tab::RowPtr => log2_ceil(p.cons_line) as int,
        Tab::RowCr => log2_ceil(p.cons_line) as int,
        Tab::RowDcr => log2_ceil(p.cons_line) as int,
        Tab::IsLin => log2_ceil(p.cons_line) as int,
        Tab::RowSlackLo => log2_ceil(p.cons_line) as int,
        Tab::RowSlackHi => log2_ceil(p.cons_line) as int,
        Tab::CntC => log2_ceil(p.cons_line) as int,
        Tab::BCnt => log2_ceil(p.cons_line) as int,
        Tab::LuOut => log2_ceil(p.lu_line) as int,
        Tab::IsLookup => log2_ceil(p.lu_line) as int,
        Tab::CntL => log2_ceil(p.lu_line) as int,
        Tab::Tp => log2_ceil(p.lu_line) as int,
        Tab::MaxRead => log2_ceil(p.entry_len) as int,
        Tab::Diff => log2_ceil(p.entry_len) as int,
        Tab::EntLin => log2_ceil(p.entry_len) as int,
        Tab::MaskA => log2_ceil(p.entry_len) as int,
        Tab::MaskB => log2_ceil(p.entry_len) as int,
        Tab::MaskC => log2_ceil(p.entry_len) as int,
        Tab::Row => log2_ceil(p.entry_len) as int,
        Tab::Col => log2_ceil(p.entry_len) as int,
        Tab::Val => log2_ceil(p.entry_len) as int,
        Tab::Pow => log2_ceil(p.entry_len) as int,
        Tab::DiffPre => log2_ceil(p.b_pre_len) as int,
        Tab::BEntLin => log2_ceil(p.b_pre_len) as int,
        Tab::MaskPre => log2_ceil(p.b_pre_len) as int,
        Tab::BRow => log2_ceil(p.b_pre_len) as int,
        Tab::BCol => log2_ceil(p.b_pre_len) as int,
        Tab::BVal => log2_ceil(p.b_pre_len) as int,
        Tab::BPow => log2_ceil(p.b_pre_len) as int,
        Tab::RangeCnt => p.log_range,
        _ => log2_ceil(p.x_len) as int,
    }
}

/// The vectors of a registration fill the cubes of their variables.
#[verifier::rlimit(80)]
#[verifier::spinoff_prover]
pub proof fn lemma_witness_len(e: EncodingView, c: CircuitView, p: ProfileView, t: Tab)
    requires
        buildable(e, c, p),
        t.committed(),
        tab_ok(t),
    ensures
        of_program(t) ==> witness_of(e, c, p.x_len, p.log_range, t).len() == pow2(
            tab_log(p, t) as nat,
        ),
        witness_of(e, c, p.x_len, p.log_range, t).len() <= pow2(tab_log(p, t) as nat),
        0 <= tab_log(p, t),
{
    let q = e.opcode.len() as int;
    lemma_rows_len(e, q);
    lemma_x_rows_len(e, NUM_FAMILIES as int);
    lemma_log2_ceil(q + 1);
    lemma_log2_ceil(e.cons_line);
    lemma_log2_ceil(e.lu_line);
    lemma_log2_ceil(p.x_len);
    lemma_log2_ceil(p.entry_len);
    lemma_log2_ceil(p.b_pre_len);
    crate::sparse::lemma_suffix_group(c, 1);
    crate::sparse::lemma_prefix_group(c, 1);
    crate::registration::encode::lemma_counters(e, 0, q);
    match t {
        Tab::Sel(j) => {
            assert(e.sel[j as int].len() == q);
        },
        Tab::Opn(s) => {
            assert(e.opn[s as int].len() == q);
        },
        Tab::Ctr(_) => {},
        Tab::DCtr(_) => {},
        Tab::Base(_) => {},
        Tab::Mult(_) => {},
        Tab::RowOut => {},
        Tab::RowPtr => {},
        Tab::RowCr => {},
        Tab::RowDcr => {},
        Tab::IsLin => {},
        Tab::RowSlackLo => {},
        Tab::RowSlackHi => {},
        Tab::CntC => {},
        Tab::BCnt => {},
        Tab::LuOut => {},
        Tab::IsLookup => {},
        Tab::CntL => {},
        Tab::MaxRead => {},
        Tab::Diff => {},
        Tab::EntLin => {},
        Tab::MaskA => {},
        Tab::MaskB => {},
        Tab::MaskC => {},
        Tab::DiffPre => {},
        Tab::BEntLin => {},
        Tab::MaskPre => {},
        Tab::XPtr => {},
        Tab::XBase => {},
        Tab::XCr => {},
        Tab::XOut => {},
        Tab::XAux => {},
        Tab::XOp(_) => {},
        Tab::XDigit(_) => {},
        Tab::XDigitSlack(_) => {},
        Tab::XPow => {},
        _ => {},
    }
}

} // verus!
