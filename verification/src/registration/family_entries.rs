//! The families of products and convolutions give the entries that the compilation emits.
use vstd::prelude::*;
use vstd::arithmetic::div_mod::*;
use crate::circuit::Entry;
use crate::compiler::{a_rows, b_rows, c_rows, cell, graded, kernel_row, left_row, plane_row};
use crate::program::kernel_pow;
use super::compiled_laws::{Compiled, lemma_instr, lemma_instr_rows};
use super::encode::{Opcode, delta_at, operands_of};
use super::expansion_laws::family_parts;
use super::family::{MAX_DIGITS, NUM_FAMILIES, convolution_families, families_of, product_families};
use super::instr_families::{
    entry_parts, lemma_convolution_parts, lemma_kernel_place, lemma_kernel_power, lemma_plane_place,
    lemma_product_parts,
};
use super::matrix_laws::matrix_of;
use super::witness::share;

verus! {

/// There are six families of a matrix product and six of a convolution, in this order, and
/// each has one to four coordinates.
pub proof fn law_families()
    ensures
        families_of().len() == NUM_FAMILIES,
        forall|k: int| 0 <= k < 6 ==> (#[trigger] families_of()[k]).opcode == Opcode::MatMult,
        forall|k: int| 6 <= k < 12 ==> (#[trigger] families_of()[k]).opcode == Opcode::Conv,
        forall|k: int|
            0 <= k < 12 ==> 1 <= (#[trigger] families_of()[k]).radices.len() <= MAX_DIGITS,
{
    let f = families_of();
    let p = product_families();
    let v = convolution_families();
    assert forall|k: int| 0 <= k < 12 implies {
        &&& k < 6 ==> (#[trigger] f[k]).opcode == Opcode::MatMult
        &&& k >= 6 ==> f[k].opcode == Opcode::Conv
        &&& 1 <= f[k].radices.len() <= MAX_DIGITS
    } by {
        if k < 6 {
            assert(f[k] == p[k]);
            assert(k == 0 || k == 1 || k == 2 || k == 3 || k == 4 || k == 5);
        } else {
            let m = k - 6;
            assert(f[k] == v[m]);
            assert(m == 0 || m == 1 || m == 2 || m == 3 || m == 4 || m == 5);
        }
    }
}

/// Entry `t` of an instruction in a family is the entry that stands at place `t` when the
/// rows of the family are read one after the other: the rows before the last one of the
/// instruction, or the last one alone.
pub open spec fn entry_matches(w: Compiled, k: int, i: int, t: int) -> bool {
    let e = w.encoding();
    let f = families_of()[k];
    let parts = family_parts(e, f, i, t);
    let row = matrix_of(w.circuit(), parts[0])[parts[1]];
    let len = row.len() as int;
    let last = delta_at(e, i).cr - 1;
    &&& len > 0
    &&& parts == entry_parts(parts[0], parts[1], row[t % len])
    &&& f.row is Digit ==> parts[1] == e.cr[i] + t / len && share(e, f, i) == last * len
    &&& f.row is Offset ==> parts[1] == e.cr[i] + last && share(e, f, i) == len
}

/// A place of a grid of rows.
proof fn lemma_split(n: int, len: int, t: int)
    requires
        1 <= len,
        0 <= n,
        0 <= t < n * len,
    ensures
        0 <= t / len < n,
        0 <= t % len < len,
        t == (t / len) * len + t % len,
{
    let s = t / len;
    let j = t % len;
    lemma_fundamental_div_mod(t, len);
    lemma_mod_bound(t, len);
    lemma_div_pos_is_pos(t, len);
    assert(s < n && t == s * len + j) by (nonlinear_arith)
        requires
            t == len * s + j,
            0 <= j < len,
            t < n * len,
            1 <= len,
    ;
}

#[verifier::rlimit(60)]
#[verifier::spinoff_prover]
proof fn lemma_product_entry(w: Compiled, k: int, i: int, t: int)
    requires
        w.ready(),
        0 <= i < w.instrs.len(),
        w.instrs[i] is MatMult,
        0 <= k < 6,
        0 <= t < share(w.encoding(), families_of()[k], i),
    ensures
        entry_matches(w, k, i, t),
{
    let e = w.encoding();
    let cc = w.circuit();
    let instr = w.instrs[i];
    let cr = e.cr[i];
    let out = e.out[i];
    let aux = e.aux[i];
    let o = operands_of(e, i);
    lemma_instr(w, i);
    lemma_instr_rows(w, i);
    lemma_product_parts(e, i, t);
    let fams = families_of();
    let p = product_families();
    assert(fams[k] == p[k]);
    let a = a_rows(instr, out, aux);
    let b = b_rows(instr, out, aux);
    let c = c_rows(instr, out, aux);
    let m = o[0];
    let n = o[1];
    let kk = o[2];
    assert(m >= 1 && n >= 1 && kk >= 1);
    if k == 0 {
        lemma_split(n, m, t);
        let s = t / m;
        let j = t % m;
        lemma_small_mod(s as nat, n as nat);
        assert(cc.a[cr + s] == a[s]);
        assert(a[s] == left_row(m, kk, o[3], s));
        assert(kk * j == j * kk) by (nonlinear_arith);
        assert(entry_parts(0, cr + s, a[s][j]) =~= seq![0, cr + s, o[3] + t, 1, kk * j]);
    } else if k == 1 {
        lemma_split(n, kk, t);
        let s = t / kk;
        let j = t % kk;
        lemma_small_mod(s as nat, n as nat);
        assert(cc.b[cr + s] == b[s]);
        assert(b[s] == graded(o[4] + s * kk, kk));
        assert(entry_parts(1, cr + s, b[s][j]) =~= seq![1, cr + s, o[4] + t, 1, j]);
    } else if k == 2 {
        lemma_small_mod(t as nat, n as nat);
        assert(cc.c[cr + t] == c[t]);
        assert(c[t] == seq![cell(aux + t)]);
        assert(t / 1 == t && t % 1 == 0);
        assert(entry_parts(2, cr + t, c[t][0]) =~= seq![2, cr + t, aux + t, 1, 0]);
    } else if k == 3 {
        assert(cc.a[cr + n] == a[n]);
        lemma_small_mod(t as nat, n as nat);
        assert(entry_parts(0, cr + n, a[n][t]) =~= seq![0, cr + n, aux + t, 1, 0]);
    } else if k == 4 {
        assert(cc.b[cr + n] == b[n]);
        assert(b[n] == seq![cell(0)]);
        assert(t == 0 && t % 1 == 0);
        assert(entry_parts(1, cr + n, b[n][0]) =~= seq![1, cr + n, 0, 1, 0]);
    } else {
        assert(cc.c[cr + n] == c[n]);
        assert(c[n] == graded(out, instr.outputs()));
        lemma_small_mod(t as nat, (m * kk) as nat);
        assert(entry_parts(2, cr + n, c[n][t]) =~= seq![2, cr + n, out + t, 1, t]);
    }
}

#[verifier::rlimit(60)]
#[verifier::spinoff_prover]
proof fn lemma_convolution_entry(w: Compiled, k: int, i: int, t: int)
    requires
        w.ready(),
        0 <= i < w.instrs.len(),
        w.instrs[i] is Conv,
        6 <= k < 12,
        0 <= t < share(w.encoding(), families_of()[k], i),
    ensures
        entry_matches(w, k, i, t),
{
    let e = w.encoding();
    let cc = w.circuit();
    let instr = w.instrs[i];
    let cr = e.cr[i];
    let out = e.out[i];
    let aux = e.aux[i];
    let o = operands_of(e, i);
    lemma_instr(w, i);
    lemma_instr_rows(w, i);
    lemma_convolution_parts(e, i, t);
    let fams = families_of();
    let p = convolution_families();
    assert(fams[k] == p[k - 6]);
    let a = a_rows(instr, out, aux);
    let b = b_rows(instr, out, aux);
    let c = c_rows(instr, out, aux);
    let ins = o[0];
    let outs = o[1];
    let n = o[2];
    let m = o[3];
    let side = n + m - 1;
    assert(n >= 1 && m >= 1 && ins >= 1 && outs >= 1);
    let plane = n * n;
    let size = outs * (m * m);
    assert(plane >= 1 && ins * n * n == ins * plane) by (nonlinear_arith)
        requires
            n >= 1,
            plane == n * n,
    ;
    assert(size >= 1 && ins * outs * m * m == ins * size) by (nonlinear_arith)
        requires
            m >= 1,
            outs >= 1,
            size == outs * (m * m),
    ;
    if k == 6 {
        lemma_split(ins, plane, t);
        let s = t / plane;
        let j = t % plane;
        lemma_plane_place(n, s, j);
        lemma_small_mod(s as nat, ins as nat);
        assert(cc.a[cr + s] == a[s]);
        assert(a[s] == plane_row(n, side, o[4], s));
        assert(side * (j / n) == (j / n) * side) by (nonlinear_arith);
        assert(entry_parts(0, cr + s, a[s][j]) =~= seq![
            0,
            cr + s,
            o[4] + t,
            1,
            side * (j / n) + j % n,
        ]);
    } else if k == 7 {
        lemma_split(ins, size, t);
        let s = t / size;
        let j = t % size;
        lemma_kernel_place(m, outs, s, j);
        lemma_small_mod(s as nat, ins as nat);
        assert(cc.b[cr + s] == b[s]);
        assert(b[s] == kernel_row(m, outs, side, o[5], s));
        lemma_kernel_power(m, side, j / (m * m), (j / m) % m, j % m);
        assert(kernel_pow(m, side, j) == (j / (m * m)) * (side * side) + (m - 1 - (j / m) % m) * side
            + (m - 1 - j % m));
        assert(entry_parts(1, cr + s, b[s][j]) =~= seq![
            1,
            cr + s,
            o[5] + t,
            1,
            kernel_pow(m, side, j),
        ]);
    } else if k == 8 {
        lemma_small_mod(t as nat, ins as nat);
        assert(cc.c[cr + t] == c[t]);
        assert(c[t] == seq![cell(aux + t)]);
        assert(t / 1 == t && t % 1 == 0);
        assert(entry_parts(2, cr + t, c[t][0]) =~= seq![2, cr + t, aux + t, 1, 0]);
    } else if k == 9 {
        assert(cc.a[cr + ins] == a[ins]);
        lemma_small_mod(t as nat, ins as nat);
        assert(entry_parts(0, cr + ins, a[ins][t]) =~= seq![0, cr + ins, aux + t, 1, 0]);
    } else if k == 10 {
        assert(cc.b[cr + ins] == b[ins]);
        assert(b[ins] == seq![cell(0)]);
        assert(t == 0 && t % 1 == 0);
        assert(entry_parts(1, cr + ins, b[ins][0]) =~= seq![1, cr + ins, 0, 1, 0]);
    } else {
        assert(cc.c[cr + ins] == c[ins]);
        assert(c[ins] == graded(out, instr.outputs()));
        lemma_small_mod(t as nat, (outs * side * side) as nat);
        assert(entry_parts(2, cr + ins, c[ins][t]) =~= seq![2, cr + ins, out + t, 1, t]);
    }
}

/// Walking the grid of a family in order gives exactly the entries that the compilation
/// emits for the rows of the family, one after the other: the row of each entry, its cell
/// from the base of the family on, its coefficient one and its power.
pub proof fn law_family_entries(w: Compiled, k: int, i: int, t: int)
    requires
        w.ready(),
        0 <= i < w.instrs.len(),
        0 <= k < NUM_FAMILIES,
        0 <= t < share(w.encoding(), families_of()[k], i),
    ensures
        entry_matches(w, k, i, t),
{
    law_families();
    lemma_instr(w, i);
    if k < 6 {
        lemma_product_entry(w, k, i, t);
    } else {
        lemma_convolution_entry(w, k, i, t);
    }
}

} // verus!
