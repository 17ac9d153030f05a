//! The families of the entries of products and convolutions, one by one.
use vstd::prelude::*;
use vstd::arithmetic::div_mod::*;
use crate::circuit::Entry;
use crate::compiler::{a_rows, b_rows, c_rows, cell, cons_len, graded, kernel_row, plane_row};
use crate::instruction::Instruction;
use crate::program::kernel_pow;
use crate::sums::{lemma_sum_eq, lemma_sum_zero, product_to, sum_to};
use super::compiled_laws::{
    Compiled, lemma_instr, lemma_instr_rows, lemma_linear_row, lemma_row_nothing, run_total,
    suffix_row,
};
use super::encode::{EncodingView, operands_of};
use super::expansion_laws::{family_parts, family_total, lin_weight, whole_row};
use super::family::{
    FamilyView, NUM_FAMILIES, convolution_families, ex_value, families_of, product_families,
    side_ex,
};
use super::matrix_laws::{lemma_row_whole, row_total};
use super::tallies::lemma_sum_parts;
use super::witness::{coordinates, is_lin_column, power_of, share, sides_of};

verus! {

proof fn lemma_coords1(a: int, t: int)
    ensures
        coordinates(seq![a], t) == seq![t % a],
{
    reveal_with_fuel(coordinates, 2);
    assert(seq![a].drop_last() =~= Seq::<int>::empty());
    assert(coordinates(seq![a], t) =~= seq![t % a]);
}

proof fn lemma_coords2(a: int, b: int, t: int)
    ensures
        coordinates(seq![a, b], t) == seq![(t / b) % a, t % b],
{
    lemma_coords1(a, t / b);
    assert(seq![a, b].drop_last() =~= seq![a]);
    assert(coordinates(seq![a, b], t) =~= seq![(t / b) % a, t % b]);
}

proof fn lemma_coords3(a: int, b: int, c: int, t: int)
    ensures
        coordinates(seq![a, b, c], t) == seq![(t / c / b) % a, (t / c) % b, t % c],
{
    lemma_coords2(a, b, t / c);
    assert(seq![a, b, c].drop_last() =~= seq![a, b]);
    assert(coordinates(seq![a, b, c], t) =~= seq![(t / c / b) % a, (t / c) % b, t % c]);
}

proof fn lemma_coords4(a: int, b: int, c: int, d: int, t: int)
    ensures
        coordinates(seq![a, b, c, d], t) == seq![
            (t / d / c / b) % a,
            (t / d / c) % b,
            (t / d) % c,
            t % d,
        ],
{
    lemma_coords3(a, b, c, t / d);
    assert(seq![a, b, c, d].drop_last() =~= seq![a, b, c]);
    assert(coordinates(seq![a, b, c, d], t) =~= seq![
        (t / d / c / b) % a,
        (t / d / c) % b,
        (t / d) % c,
        t % d,
    ]);
}

/// The number of entries and the coordinates of a family, from the sides of its grid.
proof fn lemma_grid(e: EncodingView, f: FamilyView, i: int, sides: Seq<int>)
    requires
        f.opcode == e.opcode[i],
        sides_of(f, operands_of(e, i)) == sides,
    ensures
        sides.len() == f.radices.len(),
        share(e, f, i) == product_to(sides.len() as int, |j: int| sides[j]),
{
    let o = operands_of(e, i);
    crate::sums::lemma_product_eq(
        sides.len() as int,
        |j: int| ex_value(f.radices[j], o),
        |j: int| sides[j],
    );
}

proof fn lemma_product1(a: int)
    ensures
        product_to(1, |j: int| seq![a][j]) == a,
{
    reveal_with_fuel(product_to, 2);
    let s = seq![a];
    let g = |j: int| s[j];
    assert(1 * a == a);
    assert(product_to(1, g) == a);
    crate::sums::lemma_product_eq(1, g, |j: int| seq![a][j]);
}

proof fn lemma_product2(a: int, b: int)
    ensures
        product_to(2, |j: int| seq![a, b][j]) == a * b,
{
    reveal_with_fuel(product_to, 3);
    let s = seq![a, b];
    let g = |j: int| s[j];
    assert(1 * a == a);
    assert(product_to(2, g) == a * b);
    crate::sums::lemma_product_eq(2, g, |j: int| seq![a, b][j]);
}

proof fn lemma_product3(a: int, b: int, c: int)
    ensures
        product_to(3, |j: int| seq![a, b, c][j]) == a * b * c,
{
    reveal_with_fuel(product_to, 4);
    let s = seq![a, b, c];
    let g = |j: int| s[j];
    assert(1 * a == a);
    assert(product_to(3, g) == a * b * c);
    crate::sums::lemma_product_eq(3, g, |j: int| seq![a, b, c][j]);
}

proof fn lemma_product4(a: int, b: int, c: int, d: int)
    ensures
        product_to(4, |j: int| seq![a, b, c, d][j]) == a * b * c * d,
{
    reveal_with_fuel(product_to, 5);
    let s = seq![a, b, c, d];
    let g = |j: int| s[j];
    assert(1 * a == a);
    assert(product_to(4, g) == a * b * c * d);
    crate::sums::lemma_product_eq(4, g, |j: int| seq![a, b, c, d][j]);
}

/// The families of a matrix product.
#[verifier::rlimit(40)]
#[verifier::spinoff_prover]
pub proof fn lemma_product_parts(e: EncodingView, i: int, t: int)
    requires
        e.opcode[i] is MatMult,
    ensures
        ({
            let o = operands_of(e, i);
            let fams = families_of();
            let cr = e.cr[i];
            &&& share(e, fams[0], i) == o[1] * o[0]
            &&& family_parts(e, fams[0], i, t) == seq![
                0,
                cr + (t / o[0]) % o[1],
                o[3] + t,
                1,
                o[2] * (t % o[0]),
            ]
            &&& share(e, fams[1], i) == o[1] * o[2]
            &&& family_parts(e, fams[1], i, t) == seq![
                1,
                cr + (t / o[2]) % o[1],
                o[4] + t,
                1,
                t % o[2],
            ]
            &&& share(e, fams[2], i) == o[1]
            &&& family_parts(e, fams[2], i, t) == seq![2, cr + t % o[1], e.aux[i] + t, 1, 0]
            &&& share(e, fams[3], i) == o[1]
            &&& family_parts(e, fams[3], i, t) == seq![0, cr + o[1], e.aux[i] + t, 1, 0]
            &&& share(e, fams[4], i) == 1
            &&& family_parts(e, fams[4], i, t) == seq![1, cr + o[1], t, 1, 0]
            &&& share(e, fams[5], i) == o[0] * o[2]
            &&& family_parts(e, fams[5], i, t) == seq![2, cr + o[1], e.out[i] + t, 1, t]
        }),
{
    let o = operands_of(e, i);
    let fams = families_of();
    let p = product_families();
    reveal_with_fuel(power_of, 3);
    reveal_with_fuel(ex_value, 2);
    assert(fams[0] == p[0] && fams[1] == p[1] && fams[2] == p[2] && fams[3] == p[3] && fams[4]
        == p[4] && fams[5] == p[5]);
    assert(sides_of(p[0], o) =~= seq![o[1], o[0]]);
    lemma_grid(e, p[0], i, seq![o[1], o[0]]);
    lemma_product2(o[1], o[0]);
    lemma_coords2(o[1], o[0], t);
    assert(family_parts(e, p[0], i, t) =~= seq![
        0,
        e.cr[i] + (t / o[0]) % o[1],
        o[3] + t,
        1,
        o[2] * (t % o[0]),
    ]);
    assert(sides_of(p[1], o) =~= seq![o[1], o[2]]);
    lemma_grid(e, p[1], i, seq![o[1], o[2]]);
    lemma_product2(o[1], o[2]);
    lemma_coords2(o[1], o[2], t);
    assert(1 * (t % o[2]) == t % o[2]);
    assert(family_parts(e, p[1], i, t) =~= seq![
        1,
        e.cr[i] + (t / o[2]) % o[1],
        o[4] + t,
        1,
        t % o[2],
    ]);
    assert(sides_of(p[2], o) =~= seq![o[1]]);
    lemma_grid(e, p[2], i, seq![o[1]]);
    lemma_product1(o[1]);
    lemma_coords1(o[1], t);
    assert(family_parts(e, p[2], i, t) =~= seq![2, e.cr[i] + t % o[1], e.aux[i] + t, 1, 0]);
    assert(sides_of(p[3], o) =~= seq![o[1]]);
    lemma_grid(e, p[3], i, seq![o[1]]);
    assert(family_parts(e, p[3], i, t) =~= seq![0, e.cr[i] + o[1], e.aux[i] + t, 1, 0]);
    assert(sides_of(p[4], o) =~= seq![1]);
    lemma_grid(e, p[4], i, seq![1]);
    lemma_product1(1);
    assert(family_parts(e, p[4], i, t) =~= seq![1, e.cr[i] + o[1], t, 1, 0]);
    assert(sides_of(p[5], o) =~= seq![o[0], o[2]]);
    lemma_grid(e, p[5], i, seq![o[0], o[2]]);
    lemma_product2(o[0], o[2]);
    assert(1 * t == t);
    assert(family_parts(e, p[5], i, t) =~= seq![2, e.cr[i] + o[1], e.out[i] + t, 1, t]);
}

/// The families of a convolution.
#[verifier::rlimit(60)]
#[verifier::spinoff_prover]
pub proof fn lemma_convolution_parts(e: EncodingView, i: int, t: int)
    requires
        e.opcode[i] is Conv,
    ensures
        ({
            let o = operands_of(e, i);
            let fams = families_of();
            let cr = e.cr[i];
            let side = o[2] + o[3] - 1;
            let n = o[2];
            let m = o[3];
            &&& share(e, fams[6], i) == o[0] * n * n
            &&& family_parts(e, fams[6], i, t) == seq![
                0,
                cr + (t / n / n) % o[0],
                o[4] + t,
                1,
                side * ((t / n) % n) + t % n,
            ]
            &&& share(e, fams[7], i) == o[0] * o[1] * m * m
            &&& family_parts(e, fams[7], i, t) == seq![
                1,
                cr + (t / m / m / o[1]) % o[0],
                o[5] + t,
                1,
                (m - 1) * (side + 1) + side * side * ((t / m / m) % o[1]) + (0 - side) * ((t / m)
                    % m) + (-1) * (t % m),
            ]
            &&& share(e, fams[8], i) == o[0]
            &&& family_parts(e, fams[8], i, t) == seq![2, cr + t % o[0], e.aux[i] + t, 1, 0]
            &&& share(e, fams[9], i) == o[0]
            &&& family_parts(e, fams[9], i, t) == seq![0, cr + o[0], e.aux[i] + t, 1, 0]
            &&& share(e, fams[10], i) == 1
            &&& family_parts(e, fams[10], i, t) == seq![1, cr + o[0], t, 1, 0]
            &&& share(e, fams[11], i) == o[1] * side * side
            &&& family_parts(e, fams[11], i, t) == seq![2, cr + o[0], e.out[i] + t, 1, t]
        }),
{
    let o = operands_of(e, i);
    let fams = families_of();
    let p = convolution_families();
    let side = o[2] + o[3] - 1;
    let n = o[2];
    let m = o[3];
    reveal_with_fuel(power_of, 4);
    reveal_with_fuel(ex_value, 5);
    assert(ex_value(side_ex(), o) == side);
    assert(fams[6] == p[0] && fams[7] == p[1] && fams[8] == p[2] && fams[9] == p[3] && fams[10]
        == p[4] && fams[11] == p[5]);
    assert(sides_of(p[0], o) =~= seq![o[0], n, n]);
    lemma_grid(e, p[0], i, seq![o[0], n, n]);
    lemma_product3(o[0], n, n);
    lemma_coords3(o[0], n, n, t);
    assert(1 * (t % n) == t % n);
    assert(family_parts(e, p[0], i, t) =~= seq![
        0,
        e.cr[i] + (t / n / n) % o[0],
        o[4] + t,
        1,
        side * ((t / n) % n) + t % n,
    ]);
    assert(sides_of(p[1], o) =~= seq![o[0], o[1], m, m]);
    lemma_grid(e, p[1], i, seq![o[0], o[1], m, m]);
    lemma_product4(o[0], o[1], m, m);
    lemma_coords4(o[0], o[1], m, m, t);
    assert(family_parts(e, p[1], i, t) =~= seq![
        1,
        e.cr[i] + (t / m / m / o[1]) % o[0],
        o[5] + t,
        1,
        (m - 1) * (side + 1) + side * side * ((t / m / m) % o[1]) + (0 - side) * ((t / m) % m) + (
        -1) * (t % m),
    ]);
    assert(sides_of(p[2], o) =~= seq![o[0]]);
    lemma_grid(e, p[2], i, seq![o[0]]);
    lemma_product1(o[0]);
    lemma_coords1(o[0], t);
    assert(family_parts(e, p[2], i, t) =~= seq![2, e.cr[i] + t % o[0], e.aux[i] + t, 1, 0]);
    assert(sides_of(p[3], o) =~= seq![o[0]]);
    lemma_grid(e, p[3], i, seq![o[0]]);
    assert(family_parts(e, p[3], i, t) =~= seq![0, e.cr[i] + o[0], e.aux[i] + t, 1, 0]);
    assert(sides_of(p[4], o) =~= seq![1]);
    lemma_grid(e, p[4], i, seq![1]);
    lemma_product1(1);
    assert(family_parts(e, p[4], i, t) =~= seq![1, e.cr[i] + o[0], t, 1, 0]);
    assert(sides_of(p[5], o) =~= seq![o[1], side, side]);
    lemma_grid(e, p[5], i, seq![o[1], side, side]);
    lemma_product3(o[1], side, side);
    assert(1 * t == t);
    assert(family_parts(e, p[5], i, t) =~= seq![2, e.cr[i] + o[0], e.out[i] + t, 1, t]);
}

/// The parts of an entry of a matrix.
pub open spec fn entry_parts(m: int, r: int, en: Entry) -> Seq<int> {
    seq![m, r, en.col, en.val, en.pow]
}

/// The weights of a row of a product or a convolution.
proof fn lemma_linear_total(
    e: EncodingView,
    h: spec_fn(Seq<int>) -> int,
    m: int,
    row: Seq<Entry>,
    r: int,
)
    requires
        is_lin_column(e)[r] == 1,
    ensures
        row_total(row, r, lin_weight(e, h, m)) == sum_to(
            row.len() as int,
            |t: int| h(entry_parts(m, r, row[t])),
        ),
{
    let psi = lin_weight(e, h, m);
    let a = |t: int| psi(r, row[t]);
    let b = |t: int| h(entry_parts(m, r, row[t]));
    assert forall|t: int| 0 <= t < row.len() implies #[trigger] a(t) == b(t) by {
        assert(1 * b(t) == b(t));
    }
    lemma_sum_eq(row.len() as int, a, b);
}

/// A family that is one row.
proof fn lemma_row_family(
    e: EncodingView,
    h: spec_fn(Seq<int>) -> int,
    k: int,
    i: int,
    m: int,
    row: Seq<Entry>,
    r: int,
)
    requires
        is_lin_column(e)[r] == 1,
        share(e, families_of()[k], i) == row.len(),
        forall|t: int|
            0 <= t < row.len() ==> #[trigger] family_parts(e, families_of()[k], i, t)
                == entry_parts(m, r, row[t]),
    ensures
        family_total(e, h, k, i) == row_total(row, r, lin_weight(e, h, m)),
{
    lemma_linear_total(e, h, m, row, r);
    let fam = families_of()[k];
    let a = |t: int| h(family_parts(e, families_of()[k], i, t));
    let b = |t: int| h(entry_parts(m, r, row[t]));
    assert forall|t: int| 0 <= t < row.len() implies #[trigger] a(t) == b(t) by {
        assert(family_parts(e, families_of()[k], i, t) == entry_parts(m, r, row[t]));
    }
    lemma_sum_eq(row.len() as int, a, b);
}

/// The number of place `j` of row `s` in a grid.
pub open spec fn grid_at(size: int, s: int, j: int) -> int {
    s * size + j
}

/// A family that is a row of entries for each of several rows.
#[verifier::rlimit(40)]
#[verifier::spinoff_prover]
proof fn lemma_rows_family(
    e: EncodingView,
    h: spec_fn(Seq<int>) -> int,
    k: int,
    i: int,
    m: int,
    n: int,
    size: int,
    rows: Seq<Seq<Entry>>,
    r: int,
)
    requires
        0 <= n <= rows.len(),
        0 <= size,
        forall|s: int| 0 <= s < n ==> (#[trigger] rows[s]).len() == size,
        forall|s: int| 0 <= s < n ==> is_lin_column(e)[#[trigger] (r + s)] == 1,
        share(e, families_of()[k], i) == n * size,
        forall|s: int, j: int|
            0 <= s < n && 0 <= j < size ==> family_parts(
                e,
                families_of()[k],
                i,
                #[trigger] grid_at(size, s, j),
            ) == entry_parts(m, r + s, rows[s][j]),
    ensures
        family_total(e, h, k, i) == sum_to(
            n,
            |s: int| row_total(rows[s], r + s, lin_weight(e, h, m)),
        ),
{
    let g = |t: int| h(family_parts(e, families_of()[k], i, t));
    let start = |s: int| s * size;
    assert forall|a: int, b: int| 0 <= a <= b <= n implies #[trigger] start(a) <= #[trigger] start(
        b,
    ) by {
        assert(a * size <= b * size) by (nonlinear_arith)
            requires
                a <= b,
                0 <= size,
        ;
    }
    assert(0 * size == 0);
    lemma_sum_parts(n, start, g);
    let u = |s: int| sum_to(start(s + 1) - start(s), |j: int| g(start(s) + j));
    let v = |s: int| row_total(rows[s], r + s, lin_weight(e, h, m));
    assert forall|s: int| 0 <= s < n implies #[trigger] u(s) == v(s) by {
        assert(start(s + 1) - start(s) == size) by {
            assert((s + 1) * size == s * size + size) by (nonlinear_arith);
        }
        assert(rows[s].len() == size);
        assert(is_lin_column(e)[r + s] == 1);
        lemma_linear_total(e, h, m, rows[s], r + s);
        let a = |j: int| g(start(s) + j);
        let b = |t: int| h(entry_parts(m, r + s, rows[s][t]));
        assert forall|j: int| 0 <= j < size implies #[trigger] a(j) == b(j) by {
            assert(family_parts(e, families_of()[k], i, grid_at(size, s, j)) == entry_parts(
                m,
                r + s,
                rows[s][j],
            ));
        }
        lemma_sum_eq(size, a, b);
    }
    lemma_sum_eq(n, u, v);
}

/// The rows of an instruction in a matrix on the suffix columns.
proof fn lemma_suffix_run(
    c: Seq<Seq<Entry>>,
    wl: int,
    start: int,
    rows: Seq<Seq<Entry>>,
    psi: spec_fn(int, Entry) -> int,
)
    requires
        forall|s: int| 0 <= s < rows.len() ==> #[trigger] c[start + s] == rows[s],
        forall|s: int, k: int|
            0 <= s < rows.len() && 0 <= k < rows[s].len() ==> wl <= (#[trigger] rows[s][k]).col
                < usize::MAX,
    ensures
        run_total(suffix_row(c, wl, psi), start, rows.len() as int) == sum_to(
            rows.len() as int,
            |s: int| row_total(rows[s], start + s, psi),
        ),
{
    let g = suffix_row(c, wl, psi);
    let a = |s: int| g(start + s);
    let b = |s: int| row_total(rows[s], start + s, psi);
    assert forall|s: int| 0 <= s < rows.len() implies #[trigger] a(s) == b(s) by {
        assert(c[start + s] == rows[s]);
        assert forall|k: int| 0 <= k < rows[s].len() implies wl <= (#[trigger] rows[s][k]).col
            < usize::MAX as int by {}
        lemma_row_whole(rows[s], start + s, wl, usize::MAX as int, psi);
    }
    lemma_sum_eq(rows.len() as int, a, b);
}

/// The rows of an instruction in a matrix.
proof fn lemma_whole_run(
    c: Seq<Seq<Entry>>,
    start: int,
    rows: Seq<Seq<Entry>>,
    psi: spec_fn(int, Entry) -> int,
)
    requires
        forall|s: int| 0 <= s < rows.len() ==> #[trigger] c[start + s] == rows[s],
    ensures
        run_total(whole_row(c, psi), start, rows.len() as int) == sum_to(
            rows.len() as int,
            |s: int| row_total(rows[s], start + s, psi),
        ),
{
    let g = whole_row(c, psi);
    let a = |s: int| g(start + s);
    let b = |s: int| row_total(rows[s], start + s, psi);
    assert forall|s: int| 0 <= s < rows.len() implies #[trigger] a(s) == b(s) by {
        assert(c[start + s] == rows[s]);
    }
    lemma_sum_eq(rows.len() as int, a, b);
}

/// The weights of the rows of an instruction in the three constraint matrices.
pub open spec fn linear_total(w: Compiled, h: spec_fn(Seq<int>) -> int, i: int) -> int {
    let e = w.encoding();
    let c = w.circuit();
    let wl = w.weights.len() as int;
    let n = cons_len(w.instrs[i]);
    run_total(suffix_row(c.a, wl, lin_weight(e, h, 0)), e.cr[i], n) + run_total(
        whole_row(c.b, lin_weight(e, h, 1)),
        e.cr[i],
        n,
    ) + run_total(suffix_row(c.c, wl, lin_weight(e, h, 2)), e.cr[i], n)
}

/// The weights of the entries of an instruction in all the families.
pub open spec fn families_total(e: EncodingView, h: spec_fn(Seq<int>) -> int, i: int) -> int {
    sum_to(NUM_FAMILIES as int, |k: int| family_total(e, h, k, i))
}

/// The columns of the rows of a product or a convolution are within the vector.
proof fn lemma_rows_within(w: Compiled, i: int)
    requires
        w.ready(),
        0 <= i < w.instrs.len(),
        w.instrs[i] is MatMult || w.instrs[i] is Conv,
    ensures
        ({
            let e = w.encoding();
            let wl = w.weights.len() as int;
            let a = a_rows(w.instrs[i], e.out[i], e.aux[i]);
            let c = c_rows(w.instrs[i], e.out[i], e.aux[i]);
            &&& forall|s: int, k: int|
                0 <= s < a.len() && 0 <= k < a[s].len() ==> wl <= (#[trigger] a[s][k]).col
                    < usize::MAX
            &&& forall|s: int, k: int|
                0 <= s < c.len() && 0 <= k < c[s].len() ==> wl <= (#[trigger] c[s][k]).col
                    < usize::MAX
        }),
{
    let e = w.encoding();
    let cc = w.circuit();
    let wl = w.weights.len() as int;
    let instr = w.instrs[i];
    let a = a_rows(instr, e.out[i], e.aux[i]);
    let c = c_rows(instr, e.out[i], e.aux[i]);
    lemma_instr(w, i);
    lemma_instr_rows(w, i);
    assert forall|s: int, k: int| 0 <= s < a.len() && 0 <= k < a[s].len() implies wl <= (
    #[trigger] a[s][k]).col < usize::MAX by {
        assert(cc.a[e.cr[i] + s] == a[s]);
        assert(crate::circuit::row_in_range(cc.a[e.cr[i] + s], cc.z_len));
        match instr {
            Instruction::MatMult { m, n, k: _, start1, start2 } => {
                if s < n {
                    assert(s * m >= 0) by (nonlinear_arith)
                        requires
                            s >= 0,
                            m >= 0,
                    ;
                }
            },
            Instruction::Conv { n, m, in_channels, out_channels, start1, start2 } => {
                if s < in_channels {
                    assert(s * (n * n) >= 0) by (nonlinear_arith)
                        requires
                            s >= 0,
                            n >= 0,
                    ;
                }
            },
            _ => {},
        }
    }
    assert forall|s: int, k: int| 0 <= s < c.len() && 0 <= k < c[s].len() implies wl <= (
    #[trigger] c[s][k]).col < usize::MAX by {
        assert(cc.c[e.cr[i] + s] == c[s]);
        assert(crate::circuit::row_in_range(cc.c[e.cr[i] + s], cc.z_len));
    }
}

/// The entries of a matrix product are those of its families.
#[verifier::rlimit(100)]
#[verifier::spinoff_prover]
proof fn lemma_product_instr(w: Compiled, h: spec_fn(Seq<int>) -> int, i: int)
    requires
        w.ready(),
        0 <= i < w.instrs.len(),
        w.instrs[i] is MatMult,
    ensures
        linear_total(w, h, i) == families_total(w.encoding(), h, i),
{
    let e = w.encoding();
    let cc = w.circuit();
    let wl = w.weights.len() as int;
    let instr = w.instrs[i];
    let cr = e.cr[i];
    let out = e.out[i];
    let aux = e.aux[i];
    let o = operands_of(e, i);
    lemma_instr(w, i);
    lemma_instr_rows(w, i);
    lemma_rows_within(w, i);
    let a = a_rows(instr, out, aux);
    let b = b_rows(instr, out, aux);
    let c = c_rows(instr, out, aux);
    lemma_suffix_run(cc.a, wl, cr, a, lin_weight(e, h, 0));
    lemma_whole_run(cc.b, cr, b, lin_weight(e, h, 1));
    lemma_suffix_run(cc.c, wl, cr, c, lin_weight(e, h, 2));
    let m = o[0];
    let n = o[1];
    let k = o[2];
    assert(m >= 1 && n >= 1 && k >= 1);
    assert forall|s: int| 0 <= s <= n implies is_lin_column(e)[#[trigger] (cr + s)] == 1 by {
        lemma_linear_row(w, i, s);
    }
    lemma_product_parts(e, i, 0);
    assert forall|s: int, j: int| 0 <= s < n && 0 <= j < m implies family_parts(
        e,
        families_of()[0],
        i,
        #[trigger] grid_at(m, s, j),
    ) == entry_parts(0, cr + s, a[s][j]) by {
        let t = grid_at(m, s, j);
        lemma_product_parts(e, i, t);
        lemma_fundamental_div_mod_converse(t, m, s, j);
        lemma_small_mod(s as nat, n as nat);
        assert(k * j == j * k) by (nonlinear_arith);
        assert(a[s][j] == Entry { col: o[3] + s * m + j, val: 1, pow: j * k });
        assert(entry_parts(0, cr + s, a[s][j]) =~= seq![0, cr + s, o[3] + t, 1, k * j]);
    }
    lemma_rows_family(e, h, 0, i, 0, n, m, a, cr);
    assert forall|s: int, j: int| 0 <= s < n && 0 <= j < k implies family_parts(
        e,
        families_of()[1],
        i,
        #[trigger] grid_at(k, s, j),
    ) == entry_parts(1, cr + s, b[s][j]) by {
        let t = grid_at(k, s, j);
        lemma_product_parts(e, i, t);
        lemma_fundamental_div_mod_converse(t, k, s, j);
        lemma_small_mod(s as nat, n as nat);
        assert(b[s][j] == Entry { col: o[4] + s * k + j, val: 1, pow: j });
        assert(entry_parts(1, cr + s, b[s][j]) =~= seq![1, cr + s, o[4] + t, 1, j]);
    }
    lemma_rows_family(e, h, 1, i, 1, n, k, b, cr);
    assert forall|s: int, j: int| 0 <= s < n && 0 <= j < 1 implies family_parts(
        e,
        families_of()[2],
        i,
        #[trigger] grid_at(1, s, j),
    ) == entry_parts(2, cr + s, c[s][j]) by {
        let t = grid_at(1, s, j);
        assert(t == s);
        lemma_product_parts(e, i, s);
        lemma_small_mod(s as nat, n as nat);
        assert(c[s][j] == cell(aux + s));
        assert(entry_parts(2, cr + s, c[s][j]) =~= seq![2, cr + s, aux + s, 1, 0]);
    }
    lemma_rows_family(e, h, 2, i, 2, n, 1, c, cr);
    assert(is_lin_column(e)[cr + n] == 1);
    assert forall|t: int| 0 <= t < a[n].len() implies #[trigger] family_parts(
        e,
        families_of()[3],
        i,
        t,
    ) == entry_parts(0, cr + n, a[n][t]) by {
        lemma_product_parts(e, i, t);
        assert(a[n][t] == cell(aux + t));
        assert(entry_parts(0, cr + n, a[n][t]) =~= seq![0, cr + n, aux + t, 1, 0]);
    }
    lemma_row_family(e, h, 3, i, 0, a[n], cr + n);
    assert forall|t: int| 0 <= t < b[n].len() implies #[trigger] family_parts(
        e,
        families_of()[4],
        i,
        t,
    ) == entry_parts(1, cr + n, b[n][t]) by {
        lemma_product_parts(e, i, t);
        assert(entry_parts(1, cr + n, b[n][t]) =~= seq![1, cr + n, t, 1, 0]);
    }
    lemma_row_family(e, h, 4, i, 1, b[n], cr + n);
    assert(c[n] == graded(out, instr.outputs()));
    assert(m * k >= 0) by (nonlinear_arith)
        requires
            m >= 1,
            k >= 1,
    ;
    assert forall|t: int| 0 <= t < c[n].len() implies #[trigger] family_parts(
        e,
        families_of()[5],
        i,
        t,
    ) == entry_parts(2, cr + n, c[n][t]) by {
        lemma_product_parts(e, i, t);
        assert(entry_parts(2, cr + n, c[n][t]) =~= seq![2, cr + n, out + t, 1, t]);
    }
    lemma_row_family(e, h, 5, i, 2, c[n], cr + n);
    lemma_split_rows(e, h, 0, a, cr, n);
    lemma_split_rows(e, h, 1, b, cr, n);
    lemma_split_rows(e, h, 2, c, cr, n);
    lemma_product_total(e, h, i);
}

/// The rows of an instruction are those before the last one, and the last one.
proof fn lemma_split_rows(
    e: EncodingView,
    h: spec_fn(Seq<int>) -> int,
    m: int,
    rows: Seq<Seq<Entry>>,
    start: int,
    n: int,
)
    requires
        0 <= n,
    ensures
        sum_to(n + 1, |s: int| row_total(rows[s], start + s, lin_weight(e, h, m))) == sum_to(
            n,
            |s: int| row_total(rows[s], start + s, lin_weight(e, h, m)),
        ) + row_total(rows[n], start + n, lin_weight(e, h, m)),
{
}

proof fn lemma_product_total(e: EncodingView, h: spec_fn(Seq<int>) -> int, i: int)
    requires
        e.opcode[i] is MatMult,
    ensures
        families_total(e, h, i) == family_total(e, h, 0, i) + family_total(e, h, 1, i)
            + family_total(e, h, 2, i) + family_total(e, h, 3, i) + family_total(e, h, 4, i)
            + family_total(e, h, 5, i),
{
    let p = convolution_families();
    assert(families_of()[6] == p[0] && families_of()[7] == p[1] && families_of()[8] == p[2]
        && families_of()[9] == p[3] && families_of()[10] == p[4] && families_of()[11] == p[5]);
    assert(family_total(e, h, 6, i) == 0 && family_total(e, h, 7, i) == 0 && family_total(
        e,
        h,
        8,
        i,
    ) == 0 && family_total(e, h, 9, i) == 0 && family_total(e, h, 10, i) == 0 && family_total(
        e,
        h,
        11,
        i,
    ) == 0);
    reveal_with_fuel(sum_to, 13);
}

proof fn lemma_convolution_total(e: EncodingView, h: spec_fn(Seq<int>) -> int, i: int)
    requires
        e.opcode[i] is Conv,
    ensures
        families_total(e, h, i) == family_total(e, h, 6, i) + family_total(e, h, 7, i)
            + family_total(e, h, 8, i) + family_total(e, h, 9, i) + family_total(e, h, 10, i)
            + family_total(e, h, 11, i),
{
    let p = product_families();
    assert(families_of()[0] == p[0] && families_of()[1] == p[1] && families_of()[2] == p[2]
        && families_of()[3] == p[3] && families_of()[4] == p[4] && families_of()[5] == p[5]);
    assert(family_total(e, h, 0, i) == 0 && family_total(e, h, 1, i) == 0 && family_total(
        e,
        h,
        2,
        i,
    ) == 0 && family_total(e, h, 3, i) == 0 && family_total(e, h, 4, i) == 0 && family_total(
        e,
        h,
        5,
        i,
    ) == 0);
    reveal_with_fuel(sum_to, 13);
}

/// The coordinates of a place of an input plane.
pub proof fn lemma_plane_place(n: int, ch: int, j: int)
    requires
        n >= 1,
        ch >= 0,
        0 <= j < n * n,
    ensures
        ({
            let t = ch * (n * n) + j;
            &&& t % n == j % n
            &&& (t / n) % n == j / n
            &&& t / n / n == ch
        }),
{
    let t = ch * (n * n) + j;
    let u = j / n;
    let v = j % n;
    lemma_fundamental_div_mod(j, n);
    lemma_mod_bound(j, n);
    assert(0 <= u < n) by (nonlinear_arith)
        requires
            0 <= j < n * n,
            n >= 1,
            j == n * u + v,
            0 <= v < n,
    ;
    assert(t == (ch * n + u) * n + v) by (nonlinear_arith)
        requires
            t == ch * (n * n) + j,
            j == n * u + v,
    ;
    lemma_fundamental_div_mod_converse(t, n, ch * n + u, v);
    lemma_fundamental_div_mod_converse(ch * n + u, n, ch, u);
}

/// The coordinates of a place of the kernels of a channel.
pub proof fn lemma_kernel_place(m: int, outs: int, ch: int, j: int)
    requires
        m >= 1,
        outs >= 1,
        ch >= 0,
        0 <= j < outs * (m * m),
    ensures
        ({
            let t = ch * (outs * (m * m)) + j;
            &&& t % m == j % m
            &&& (t / m) % m == (j / m) % m
            &&& (t / m / m) % outs == j / (m * m)
            &&& t / m / m / outs == ch
        }),
{
    let t = ch * (outs * (m * m)) + j;
    let u = j / m;
    let v = j % m;
    let x = u / m;
    let y = u % m;
    lemma_fundamental_div_mod(j, m);
    lemma_mod_bound(j, m);
    lemma_fundamental_div_mod(u, m);
    lemma_mod_bound(u, m);
    lemma_div_pos_is_pos(j, m);
    lemma_div_pos_is_pos(u, m);
    lemma_div_denominator(j, m, m);
    assert(j == x * (m * m) + (y * m + v)) by (nonlinear_arith)
        requires
            j == m * u + v,
            u == m * x + y,
    ;
    assert(x < outs) by (nonlinear_arith)
        requires
            x * (m * m) + (y * m + v) < outs * (m * m),
            0 <= y,
            0 <= v,
            m >= 1,
    ;
    let a = ch * outs;
    assert(ch * (outs * (m * m)) == ch * outs * m * m) by (nonlinear_arith);
    assert(t == (a * m + u) * m + v) by (nonlinear_arith)
        requires
            t == a * m * m + j,
            j == m * u + v,
    ;
    lemma_fundamental_div_mod_converse(t, m, a * m + u, v);
    assert(a * m + u == (a + x) * m + y) by (nonlinear_arith)
        requires
            u == m * x + y,
    ;
    lemma_fundamental_div_mod_converse(a * m + u, m, a + x, y);
    lemma_fundamental_div_mod_converse(a + x, outs, ch, x);
}

/// The entries of a convolution are those of its families.
#[verifier::rlimit(100)]
#[verifier::spinoff_prover]
proof fn lemma_convolution_instr(w: Compiled, h: spec_fn(Seq<int>) -> int, i: int)
    requires
        w.ready(),
        0 <= i < w.instrs.len(),
        w.instrs[i] is Conv,
    ensures
        linear_total(w, h, i) == families_total(w.encoding(), h, i),
{
    let e = w.encoding();
    let cc = w.circuit();
    let wl = w.weights.len() as int;
    let instr = w.instrs[i];
    let cr = e.cr[i];
    let out = e.out[i];
    let aux = e.aux[i];
    let o = operands_of(e, i);
    lemma_instr(w, i);
    lemma_instr_rows(w, i);
    lemma_rows_within(w, i);
    let a = a_rows(instr, out, aux);
    let b = b_rows(instr, out, aux);
    let c = c_rows(instr, out, aux);
    lemma_suffix_run(cc.a, wl, cr, a, lin_weight(e, h, 0));
    lemma_whole_run(cc.b, cr, b, lin_weight(e, h, 1));
    lemma_suffix_run(cc.c, wl, cr, c, lin_weight(e, h, 2));
    let ins = o[0];
    let outs = o[1];
    let n = o[2];
    let m = o[3];
    let side = n + m - 1;
    assert(n >= 1 && m >= 1 && ins >= 1 && outs >= 1);
    assert forall|s: int| 0 <= s <= ins implies is_lin_column(e)[#[trigger] (cr + s)] == 1 by {
        lemma_linear_row(w, i, s);
    }
    lemma_convolution_parts(e, i, 0);
    assert(n * n >= 0 && ins * n * n == ins * (n * n)) by (nonlinear_arith)
        requires
            n >= 1,
    ;
    assert forall|s: int, j: int| 0 <= s < ins && 0 <= j < n * n implies family_parts(
        e,
        families_of()[6],
        i,
        #[trigger] grid_at(n * n, s, j),
    ) == entry_parts(0, cr + s, a[s][j]) by {
        let t = grid_at(n * n, s, j);
        lemma_convolution_parts(e, i, t);
        lemma_plane_place(n, s, j);
        lemma_small_mod(s as nat, ins as nat);
        assert(a[s] == plane_row(n, side, o[4], s));
        assert(side * (j / n) == (j / n) * side) by (nonlinear_arith);
        assert(entry_parts(0, cr + s, a[s][j]) =~= seq![
            0,
            cr + s,
            o[4] + t,
            1,
            side * (j / n) + j % n,
        ]);
    }
    lemma_rows_family(e, h, 6, i, 0, ins, n * n, a, cr);
    let size = outs * (m * m);
    assert(size >= 0 && ins * outs * m * m == ins * size) by (nonlinear_arith)
        requires
            m >= 1,
            outs >= 1,
            size == outs * (m * m),
    ;
    assert forall|s: int, j: int| 0 <= s < ins && 0 <= j < size implies family_parts(
        e,
        families_of()[7],
        i,
        #[trigger] grid_at(size, s, j),
    ) == entry_parts(1, cr + s, b[s][j]) by {
        let t = grid_at(size, s, j);
        lemma_convolution_parts(e, i, t);
        lemma_kernel_place(m, outs, s, j);
        lemma_small_mod(s as nat, ins as nat);
        assert(b[s] == kernel_row(m, outs, side, o[5], s));
        lemma_kernel_power(m, side, j / (m * m), (j / m) % m, j % m);
        assert(kernel_pow(m, side, j) == (j / (m * m)) * (side * side) + (m - 1 - (j / m) % m) * side
            + (m - 1 - j % m));
        assert(entry_parts(1, cr + s, b[s][j]) =~= seq![
            1,
            cr + s,
            o[5] + t,
            1,
            kernel_pow(m, side, j),
        ]);
    }
    lemma_rows_family(e, h, 7, i, 1, ins, size, b, cr);
    assert forall|s: int, j: int| 0 <= s < ins && 0 <= j < 1 implies family_parts(
        e,
        families_of()[8],
        i,
        #[trigger] grid_at(1, s, j),
    ) == entry_parts(2, cr + s, c[s][j]) by {
        let t = grid_at(1, s, j);
        assert(t == s);
        lemma_convolution_parts(e, i, s);
        lemma_small_mod(s as nat, ins as nat);
        assert(c[s][j] == cell(aux + s));
        assert(entry_parts(2, cr + s, c[s][j]) =~= seq![2, cr + s, aux + s, 1, 0]);
    }
    lemma_rows_family(e, h, 8, i, 2, ins, 1, c, cr);
    assert(is_lin_column(e)[cr + ins] == 1);
    assert forall|t: int| 0 <= t < a[ins].len() implies #[trigger] family_parts(
        e,
        families_of()[9],
        i,
        t,
    ) == entry_parts(0, cr + ins, a[ins][t]) by {
        lemma_convolution_parts(e, i, t);
        assert(a[ins][t] == cell(aux + t));
        assert(entry_parts(0, cr + ins, a[ins][t]) =~= seq![0, cr + ins, aux + t, 1, 0]);
    }
    lemma_row_family(e, h, 9, i, 0, a[ins], cr + ins);
    assert forall|t: int| 0 <= t < b[ins].len() implies #[trigger] family_parts(
        e,
        families_of()[10],
        i,
        t,
    ) == entry_parts(1, cr + ins, b[ins][t]) by {
        lemma_convolution_parts(e, i, t);
        assert(entry_parts(1, cr + ins, b[ins][t]) =~= seq![1, cr + ins, t, 1, 0]);
    }
    lemma_row_family(e, h, 10, i, 1, b[ins], cr + ins);
    assert(c[ins] == graded(out, instr.outputs()));
    assert(outs * side * side >= 0) by (nonlinear_arith)
        requires
            outs >= 1,
            side >= 1,
    ;
    assert forall|t: int| 0 <= t < c[ins].len() implies #[trigger] family_parts(
        e,
        families_of()[11],
        i,
        t,
    ) == entry_parts(2, cr + ins, c[ins][t]) by {
        lemma_convolution_parts(e, i, t);
        assert(entry_parts(2, cr + ins, c[ins][t]) =~= seq![2, cr + ins, out + t, 1, t]);
    }
    lemma_row_family(e, h, 11, i, 2, c[ins], cr + ins);
    lemma_split_rows(e, h, 0, a, cr, ins);
    lemma_split_rows(e, h, 1, b, cr, ins);
    lemma_split_rows(e, h, 2, c, cr, ins);
    lemma_convolution_total(e, h, i);
}

/// The power of an entry of a kernel, written in two ways.
pub proof fn lemma_kernel_power(m: int, side: int, a: int, b: int, d: int)
    ensures
        (m - 1) * (side + 1) + side * side * a + (0 - side) * b + (-1) * d == a * (side * side) + (m
            - 1 - b) * side + (m - 1 - d),
{
    assert((m - 1) * (side + 1) == (m - 1) * side + (m - 1)) by (nonlinear_arith);
    assert((m - 1 - b) * side == (m - 1) * side - b * side) by (nonlinear_arith);
    assert((0 - side) * b == -(b * side)) by (nonlinear_arith);
    assert(side * side * a == a * (side * side)) by (nonlinear_arith);
}

/// The entries of an instruction that is no product or convolution weigh nothing.
proof fn lemma_plain_instr(w: Compiled, h: spec_fn(Seq<int>) -> int, i: int)
    requires
        w.ready(),
        0 <= i < w.instrs.len(),
        !(w.instrs[i] is MatMult || w.instrs[i] is Conv),
    ensures
        linear_total(w, h, i) == families_total(w.encoding(), h, i),
{
    let e = w.encoding();
    let c = w.circuit();
    let wl = w.weights.len() as int;
    let n = cons_len(w.instrs[i]);
    let cr = e.cr[i];
    lemma_instr(w, i);
    let ga = suffix_row(c.a, wl, lin_weight(e, h, 0));
    let gb = whole_row(c.b, lin_weight(e, h, 1));
    let gc = suffix_row(c.c, wl, lin_weight(e, h, 2));
    let a = |s: int| ga(cr + s);
    let b = |s: int| gb(cr + s);
    let d = |s: int| gc(cr + s);
    assert forall|s: int| 0 <= s < n implies #[trigger] a(s) == 0 && b(s) == 0 && d(s) == 0 by {
        lemma_linear_row(w, i, s);
        lemma_weightless(e, h, 0, cr + s);
        lemma_weightless(e, h, 1, cr + s);
        lemma_weightless(e, h, 2, cr + s);
        let top = usize::MAX as int;
        lemma_row_nothing(c.a[cr + s], cr + s, wl, top, lin_weight(e, h, 0));
        lemma_row_nothing(c.c[cr + s], cr + s, wl, top, lin_weight(e, h, 2));
        let row = c.b[cr + s];
        let psi = lin_weight(e, h, 1);
        let u = |k: int| psi(cr + s, row[k]);
        assert forall|k: int| 0 <= k < row.len() implies #[trigger] u(k) == 0 by {
            assert(psi(cr + s, row[k]) == 0);
        }
        lemma_sum_zero(row.len() as int, u);
    }
    lemma_sum_zero(n, a);
    assert forall|s: int| 0 <= s < n implies #[trigger] b(s) == 0 by {
        assert(a(s) == 0);
    }
    lemma_sum_zero(n, b);
    assert forall|s: int| 0 <= s < n implies #[trigger] d(s) == 0 by {
        assert(a(s) == 0);
    }
    lemma_sum_zero(n, d);
    let g = |k: int| family_total(e, h, k, i);
    assert forall|k: int| 0 <= k < NUM_FAMILIES implies #[trigger] g(k) == 0 by {
        let p = product_families();
        let v = convolution_families();
        if k < 6 {
            assert(families_of()[k] == p[k]);
            assert(k == 0 || k == 1 || k == 2 || k == 3 || k == 4 || k == 5);
            assert(p[k].opcode is MatMult);
        } else {
            assert(families_of()[k] == v[k - 6]);
            let j = k - 6;
            assert(j == 0 || j == 1 || j == 2 || j == 3 || j == 4 || j == 5);
            assert(v[k - 6].opcode is Conv);
        }
        assert(share(e, families_of()[k], i) == 0);
    }
    lemma_sum_zero(NUM_FAMILIES as int, g);
}

/// Entries of plain rows weigh nothing.
proof fn lemma_weightless(e: EncodingView, h: spec_fn(Seq<int>) -> int, m: int, r: int)
    requires
        is_lin_column(e)[r] == 0,
    ensures
        forall|en: Entry| #[trigger] lin_weight(e, h, m)(r, en) == 0,
{
    assert forall|en: Entry| #[trigger] lin_weight(e, h, m)(r, en) == 0 by {
        let y = h(seq![m, r, en.col, en.val, en.pow]);
        assert(0 * y == 0);
    }
}

/// The entries of an instruction are those of its families.
pub proof fn lemma_instr_families(w: Compiled, h: spec_fn(Seq<int>) -> int, i: int)
    requires
        w.ready(),
        0 <= i < w.instrs.len(),
    ensures
        linear_total(w, h, i) == families_total(w.encoding(), h, i),
{
    if w.instrs[i] is MatMult {
        lemma_product_instr(w, h, i);
    } else if w.instrs[i] is Conv {
        lemma_convolution_instr(w, h, i);
    } else {
        lemma_plain_instr(w, h, i);
    }
}

} // verus!
