//! The vectors of the families pass the zero checks.
use vstd::prelude::*;
use vstd::arithmetic::div_mod::*;
use vstd::arithmetic::power2::*;
use crate::circuit::CircuitView;
use crate::field::cong;
use crate::replay::row_at;
use crate::sparse::cumulated;
use crate::sumcheck::gate_value;
use crate::sums::product_to;
use super::accepted::check_holds;
use super::cells::lemma_family_cells;
use super::certificate::{circuit_vectors, column_of, columns_of, registrable};
use super::columns::{lemma_family_rows_len, lemma_sides, lemma_x_rows_len};
use super::encode::{EncodingView, NUM_OPERANDS, operands_of};
use super::family::{
    FamilyView, MAX_DIGITS, NUM_FAMILIES, PowTerm, ex_value, families_of, family_fits, family_size,
    family_wf, lemma_ex_gate, lemma_families,
};
use super::relation::{
    Tab, check_positions, check_powers, check_sides, fam_ind, fam_lo, flat_gate, left_gate,
    left_gates, number_gate, position_gates, power_gate, power_gates, unused_gate,
};
use super::witness::{
    circuit_profile, coordinates, families_fit, family_lens_of, family_rows, instr_families_fit,
    lemma_cumulated, lemma_share_sum, power_of, share, share_sum, sides_of, x_row, x_rows,
};
use super::zero_laws::{lemma_joined_zero, lemma_row_cells};

verus! {

/// Where an entry of a family stands.
pub proof fn lemma_family_row(e: EncodingView, k: int, n: int, x: int) -> (at: (int, int))
    requires
        families_fit(e),
        0 <= k < NUM_FAMILIES,
        0 <= n <= e.opcode.len(),
        0 <= x < family_rows(e, families_of()[k], n).len(),
    ensures
        0 <= at.0 < n,
        0 <= at.1 < share(e, families_of()[k], at.0),
        x == share_sum(e, families_of()[k], at.0) + at.1,
        family_rows(e, families_of()[k], n)[x] == x_row(e, families_of()[k], at.0, at.1),
    decreases n,
{
    let f = families_of()[k];
    let before = family_rows(e, f, n - 1).len() as int;
    lemma_family_rows_len(e, k, n - 1);
    lemma_share_sum(e, k, n - 1, n);
    if x < before {
        lemma_family_row(e, k, n - 1, x)
    } else {
        (n - 1, x - before)
    }
}

/// Where an entry of the families stands.
pub proof fn lemma_x_row(e: EncodingView, n: int, x: int) -> (at: (int, int, int))
    requires
        families_fit(e),
        0 <= n <= NUM_FAMILIES,
        0 <= x < x_rows(e, n).len(),
    ensures
        0 <= at.0 < n,
        0 <= at.1 < e.opcode.len(),
        0 <= at.2 < share(e, families_of()[at.0], at.1),
        x == cumulated(family_lens_of(e), at.0) + share_sum(e, families_of()[at.0], at.1) + at.2,
        cumulated(family_lens_of(e), at.0) <= x < cumulated(family_lens_of(e), at.0 + 1),
        x_rows(e, n)[x] == x_row(e, families_of()[at.0], at.1, at.2),
    decreases n,
{
    lemma_families();
    let before = x_rows(e, n - 1).len() as int;
    lemma_x_rows_len(e, n - 1);
    lemma_x_rows_len(e, n);
    if x < before {
        lemma_x_row(e, n - 1, x)
    } else {
        let q = e.opcode.len() as int;
        let at = lemma_family_row(e, n - 1, q, x - before);
        lemma_share_sum(e, n - 1, at.0, q);
        (n - 1, at.0, at.1)
    }
}

/// The indicators of the families at a place of a family.
proof fn lemma_fam_inds(
    e: EncodingView,
    c: CircuitView,
    f: spec_fn(Tab) -> Seq<int>,
    len: int,
    x: int,
    k: int,
)
    requires
        registrable(e, c),
        0 <= k < NUM_FAMILIES,
        0 <= x < len,
        cumulated(family_lens_of(e), k) <= x < cumulated(family_lens_of(e), k + 1),
    ensures
        forall|j: int|
            0 <= j < NUM_FAMILIES ==> #[trigger] column_of(
                f,
                fam_ind(circuit_profile(e, c), j),
                len,
            )[x] == if j == k {
                1int
            } else {
                0
            },
{
    let p = circuit_profile(e, c);
    let lens = family_lens_of(e);
    lemma_lens(e);
    assert forall|j: int| 0 <= j < NUM_FAMILIES implies #[trigger] column_of(
        f,
        fam_ind(p, j),
        len,
    )[x] == if j == k {
        1int
    } else {
        0
    } by {
        lemma_cumulated(lens, j, NUM_FAMILIES as int);
        lemma_cumulated(lens, j + 1, NUM_FAMILIES as int);
        if j < k {
            lemma_cumulated(lens, j + 1, k);
        } else if j > k {
            lemma_cumulated(lens, k + 1, j);
        }
    }
}

/// Past the entries of the families there is none.
proof fn lemma_no_fam_inds(
    e: EncodingView,
    c: CircuitView,
    f: spec_fn(Tab) -> Seq<int>,
    len: int,
    x: int,
)
    requires
        registrable(e, c),
        circuit_profile(e, c).x_len <= x < len,
    ensures
        forall|j: int|
            0 <= j < NUM_FAMILIES ==> #[trigger] column_of(
                f,
                fam_ind(circuit_profile(e, c), j),
                len,
            )[x] == 0,
{
    let p = circuit_profile(e, c);
    let lens = family_lens_of(e);
    lemma_lens(e);
    assert forall|j: int| 0 <= j < NUM_FAMILIES implies #[trigger] column_of(
        f,
        fam_ind(p, j),
        len,
    )[x] == 0 by {
        lemma_cumulated(lens, j, NUM_FAMILIES as int);
        lemma_cumulated(lens, j + 1, NUM_FAMILIES as int);
    }
}

/// The numbers of entries of the families are no less than zero.
pub proof fn lemma_lens(e: EncodingView)
    requires
        families_fit(e),
    ensures
        family_lens_of(e).len() == NUM_FAMILIES,
        forall|j: int| 0 <= j < NUM_FAMILIES ==> 0 <= #[trigger] family_lens_of(e)[j],
        forall|j: int|
            0 <= j < NUM_FAMILIES ==> #[trigger] family_lens_of(e)[j] == share_sum(
                e,
                families_of()[j],
                e.opcode.len() as int,
            ),
{
    lemma_families();
    assert forall|j: int| 0 <= j < NUM_FAMILIES implies 0 <= #[trigger] family_lens_of(e)[j] by {
        lemma_share_sum(e, j, 0, e.opcode.len() as int);
    }
}

/// The number that the first `n` coordinates make.
pub open spec fn number_of(sides: Seq<int>, d: Seq<int>, n: int) -> int
    decreases n,
{
    if n <= 1 {
        d[0]
    } else {
        number_of(sides, d, n - 1) * sides[n - 1] + d[n - 1]
    }
}

proof fn lemma_number_prefix(s: Seq<int>, d: Seq<int>, s1: Seq<int>, d1: Seq<int>, n: int)
    requires
        1 <= n <= s.len(),
        n <= s1.len(),
        n <= d.len(),
        n <= d1.len(),
        forall|j: int| 0 <= j < n ==> #[trigger] s[j] == s1[j],
        forall|j: int| 0 <= j < n ==> #[trigger] d[j] == d1[j],
    ensures
        number_of(s, d, n) == number_of(s1, d1, n),
    decreases n,
{
    if n > 1 {
        lemma_number_prefix(s, d, s1, d1, n - 1);
    }
}

/// The coordinates of a point are within the sides, and make its number.
pub proof fn lemma_coordinates(sides: Seq<int>, t: int)
    requires
        sides.len() >= 1,
        forall|j: int| 0 <= j < sides.len() ==> #[trigger] sides[j] >= 1,
        0 <= t < product_to(sides.len() as int, |j: int| sides[j]),
    ensures
        coordinates(sides, t).len() == sides.len(),
        number_of(sides, coordinates(sides, t), sides.len() as int) == t,
        forall|j: int|
            0 <= j < sides.len() ==> 0 <= #[trigger] coordinates(sides, t)[j] < sides[j],
    decreases sides.len(),
{
    let n = sides.len() as int;
    let last = sides.last();
    let less = sides.drop_last();
    let d = coordinates(sides, t);
    lemma_fundamental_div_mod(t, last);
    lemma_mod_bound(t, last);
    assert(last == sides[n - 1]);
    reveal_with_fuel(product_to, 2);
    if n == 1 {
        let g = |j: int| sides[j];
        let one = product_to(0, g);
        assert(product_to(1, g) == one * g(0));
        assert(one * last == last) by (nonlinear_arith)
            requires
                one == 1,
        ;
        lemma_small_mod(t as nat, last as nat);
        assert(less.len() == 0);
        assert(coordinates(less, t / last) =~= Seq::<int>::empty());
        assert(d[0] == t % last);
    } else {
        let all = product_to(n - 1, |j: int| sides[j]);
        let u = t / last;
        assert(0 <= u < all) by (nonlinear_arith)
            requires
                0 <= t < all * last,
                last >= 1,
                t == last * u + t % last,
                0 <= t % last < last,
        ;
        crate::sums::lemma_product_eq(n - 1, |j: int| sides[j], |j: int| less[j]);
        lemma_coordinates(less, u);
        let d1 = coordinates(less, u);
        lemma_number_prefix(sides, d, less, d1, n - 1);
        assert(u * last + t % last == t) by (nonlinear_arith)
            requires
                t == last * u + t % last,
        ;
        assert forall|j: int| 0 <= j < n implies 0 <= #[trigger] d[j] < sides[j] by {
            if j < n - 1 {
                assert(d[j] == d1[j]);
                assert(less[j] == sides[j]);
            }
        }
    }
}

/// The coordinates of the entries of an instruction.
pub proof fn lemma_entry_coordinates(e: EncodingView, k: int, i: int, t: int)
    requires
        families_fit(e),
        0 <= k < NUM_FAMILIES,
        0 <= i < e.opcode.len(),
        0 <= t < share(e, families_of()[k], i),
    ensures
        ({
            let f = families_of()[k];
            let o = operands_of(e, i);
            let sides = sides_of(f, o);
            let d = coordinates(sides, t);
            &&& f.opcode == e.opcode[i]
            &&& family_wf(f)
            &&& sides.len() == f.radices.len()
            &&& d.len() == sides.len()
            &&& number_of(sides, d, sides.len() as int) == t
            &&& forall|j: int| 0 <= j < sides.len() ==> 0 <= #[trigger] d[j] < sides[j]
            &&& 0 <= t < family_size(f, o)
        }),
{
    let f = families_of()[k];
    let o = operands_of(e, i);
    let sides = sides_of(f, o);
    lemma_families();
    assert(family_wf(f));
    assert(instr_families_fit(e, i));
    assert(family_fits(f, o));
    lemma_sides(f, o, f.radices.len() as int);
    assert forall|j: int| 0 <= j < sides.len() implies #[trigger] sides[j] >= 1 by {
        assert(ex_value(f.radices[j], o) >= 1);
    }
    crate::sums::lemma_product_eq(
        sides.len() as int,
        |j: int| ex_value(f.radices[j], o),
        |j: int| sides[j],
    );
    lemma_coordinates(sides, t);
}

pub proof fn lemma_number_gate(
    f: FamilyView,
    digits: int,
    ops: int,
    n: int,
    v: Seq<int>,
    coins: Seq<int>,
    o: Seq<int>,
    d: Seq<int>,
)
    requires
        family_wf(f),
        1 <= n <= f.radices.len(),
        0 <= digits <= 100,
        0 <= ops <= 100,
        o == Seq::new(NUM_OPERANDS as nat, |s: int| v[ops + s]),
        d.len() == f.radices.len(),
        forall|j: int| 0 <= j < d.len() ==> v[digits + j] == #[trigger] d[j],
    ensures
        gate_value(number_gate(f, digits, ops, n), v, coins) == number_of(sides_of(f, o), d, n),
    decreases n,
{
    reveal_with_fuel(gate_value, 3);
    assert(v[digits + (n - 1)] == d[n - 1]);
    if n > 1 {
        lemma_number_gate(f, digits, ops, n - 1, v, coins, o, d);
        lemma_ex_gate(f.radices[n - 1], ops, v, coins, 200, 0);
    } else {
        assert(v[digits + 0] == d[0]);
    }
}

proof fn lemma_unused_gate(digits: int, k: int, v: Seq<int>, coins: Seq<int>)
    requires
        0 <= digits <= 100,
        0 <= k,
        forall|j: int| k <= j < MAX_DIGITS ==> v[#[trigger] (digits + j)] == 0,
    ensures
        gate_value(unused_gate(digits, k), v, coins) == 0,
    decreases MAX_DIGITS - k,
{
    reveal_with_fuel(gate_value, 2);
    if k < MAX_DIGITS {
        lemma_unused_gate(digits, k + 1, v, coins);
        assert(v[digits + k] == 0);
    }
}

/// The numbers of the entries of the families are what their coordinates make.
#[verifier::rlimit(40)]
#[verifier::spinoff_prover]
pub proof fn lemma_check_positions(e: EncodingView, c: CircuitView, chals: Seq<int>)
    requires
        registrable(e, c),
    ensures
        check_holds(circuit_vectors(e, c), check_positions(circuit_profile(e, c)), chals),
{
    let f = circuit_vectors(e, c);
    let p = circuit_profile(e, c);
    let x = check_positions(p);
    let len = pow2(x.log_len as nat) as int;
    let gs = position_gates(p);
    lemma_families();
    lemma_lens(e);
    assert forall|j: int| 0 <= j < len implies cong(
        gate_value(x.gate, #[trigger] row_at(columns_of(f, x.tables, len), j), chals),
        0,
    ) by {
        let v = row_at(columns_of(f, x.tables, len), j);
        lemma_row_cells(f, x.tables, len, j);
        lemma_family_cells(e, c, j);
        assert(x.tables.len() == 24);
        assert forall|k: int| 0 <= k < NUM_FAMILIES implies v[#[trigger] (12 + k)] == column_of(
            f,
            fam_ind(p, k),
            len,
        )[j] by {
            assert(x.tables[12 + k] == fam_ind(p, k));
        }
        if j < p.x_len {
            let at = lemma_x_row(e, NUM_FAMILIES as int, j);
            lemma_fam_inds(e, c, f, len, j, at.0);
            lemma_entry_coordinates(e, at.0, at.1, at.2);
            let row = x_rows(e, NUM_FAMILIES as int)[j];
            let fam = families_of()[at.0];
            let o = operands_of(e, at.1);
            let d = coordinates(sides_of(fam, o), at.2);
            let n = fam.radices.len() as int;
            assert(x.tables[0] == Tab::Identity && x.tables[1] == Tab::XBase);
            assert(v[0] == j);
            assert(v[1] == row.base);
            assert forall|s: int| 0 <= s < MAX_DIGITS implies v[#[trigger] (2 + s)]
                == row.digits[s] by {
                assert(x.tables[2 + s] == Tab::XDigit(s as usize));
            }
            let o1 = Seq::new(NUM_OPERANDS as nat, |s: int| v[6 + s]);
            assert forall|s: int| 0 <= s < NUM_OPERANDS implies o1[s] == o[s] by {
                assert(x.tables[6 + s] == Tab::XOp(s as usize));
            }
            assert(o1 =~= o);
            assert forall|s: int| 0 <= s < d.len() implies v[2 + s] == #[trigger] d[s] by {
                assert(v[2 + s] == row.digits[s]);
            }
            lemma_number_gate(fam, 2, 6, n, v, chals, o1, d);
            assert forall|s: int| n <= s < MAX_DIGITS implies v[#[trigger] (2 + s)] == 0 by {
                assert(v[2 + s] == row.digits[s]);
            }
            lemma_unused_gate(2, n, v, chals);
        } else {
            lemma_no_fam_inds(e, c, f, len, j);
        }
        assert forall|k: int| 0 <= k < gs.len() implies gate_value(#[trigger] gs[k], v, chals)
            == 0 by {
            let fam = families_of()[k];
            let lo = fam_lo(p, k);
            lemma_cumulated(family_lens_of(e), k, NUM_FAMILIES as int);
            let a = gate_value(flat_gate(lo, 0), v, chals);
            let b = gate_value(number_gate(fam, 2, 6, fam.radices.len() as int), v, chals);
            let z = gate_value(unused_gate(2, fam.radices.len() as int), v, chals);
            reveal_with_fuel(gate_value, 4);
            assert(a == v[0] - lo - v[1]);
            assert(v[12 + k] == column_of(f, fam_ind(p, k), len)[j]);
            assert(gate_value(gs[k], v, chals) == v[12 + k] * (a - b + z));
            assert(0 * (a - b + z) == 0);
            assert(1 * 0 == 0);
        }
        lemma_joined_zero(7, gs, 0, v, chals);
    }
}

/// What is left between the coordinates and the sides is what it should be.
#[verifier::rlimit(40)]
#[verifier::spinoff_prover]
pub proof fn lemma_check_sides(e: EncodingView, c: CircuitView, chals: Seq<int>)
    requires
        registrable(e, c),
    ensures
        check_holds(circuit_vectors(e, c), check_sides(circuit_profile(e, c)), chals),
{
    let f = circuit_vectors(e, c);
    let p = circuit_profile(e, c);
    let x = check_sides(p);
    let len = pow2(x.log_len as nat) as int;
    let gs = left_gates();
    lemma_families();
    assert forall|j: int| 0 <= j < len implies cong(
        gate_value(x.gate, #[trigger] row_at(columns_of(f, x.tables, len), j), chals),
        0,
    ) by {
        let v = row_at(columns_of(f, x.tables, len), j);
        lemma_row_cells(f, x.tables, len, j);
        lemma_family_cells(e, c, j);
        assert(x.tables.len() == 26);
        assert forall|k: int| 0 <= k < NUM_FAMILIES implies v[#[trigger] (14 + k)] == column_of(
            f,
            fam_ind(p, k),
            len,
        )[j] by {
            assert(x.tables[14 + k] == fam_ind(p, k));
        }
        assert forall|t: int| 0 <= t < gs.len() implies gate_value(#[trigger] gs[t], v, chals)
            == 0 by {
            let k = t / MAX_DIGITS as int;
            let s = t % MAX_DIGITS as int;
            let fam = families_of()[k];
            let left = gate_value(left_gate(fam, s), v, chals);
            reveal_with_fuel(gate_value, 3);
            assert(v[14 + k] == column_of(f, fam_ind(p, k), len)[j]);
            assert(gate_value(gs[t], v, chals) == v[14 + k] * (v[s] - left));
            assert(0 * (v[s] - left) == 0);
            assert(1 * 0 == 0);
            if j < p.x_len {
                let at = lemma_x_row(e, NUM_FAMILIES as int, j);
                lemma_fam_inds(e, c, f, len, j, at.0);
                if k == at.0 {
                    let row = x_rows(e, NUM_FAMILIES as int)[j];
                    let o = operands_of(e, at.1);
                    assert(x.tables[s] == Tab::XDigitSlack(s as usize));
                    assert(v[s] == row.slacks[s]);
                    assert(x.tables[4 + s] == Tab::XDigit(s as usize));
                    assert(v[4 + s] == row.digits[s]);
                    let o1 = Seq::new(NUM_OPERANDS as nat, |u: int| v[8 + u]);
                    assert forall|u: int| 0 <= u < NUM_OPERANDS implies o1[u] == o[u] by {
                        assert(x.tables[8 + u] == Tab::XOp(u as usize));
                    }
                    assert(o1 =~= o);
                    if s < fam.radices.len() {
                        lemma_ex_gate(fam.radices[s], 8, v, chals, 200, 0);
                        reveal_with_fuel(gate_value, 4);
                        assert(left == ex_value(fam.radices[s], o) - 1 - v[4 + s]);
                    }
                    assert(v[s] == left);
                }
            } else {
                lemma_no_fam_inds(e, c, f, len, j);
            }
        }
        lemma_joined_zero(7, gs, 0, v, chals);
    }
}

pub proof fn lemma_power_gate(
    f: FamilyView,
    lo: int,
    n: int,
    v: Seq<int>,
    coins: Seq<int>,
    o: Seq<int>,
    d: Seq<int>,
    t: int,
)
    requires
        family_wf(f),
        0 <= n <= f.pow.len(),
        0 <= lo <= i64::MAX,
        o == Seq::new(NUM_OPERANDS as nat, |s: int| v[7 + s]),
        d.len() == f.radices.len(),
        forall|j: int| 0 <= j < d.len() ==> v[3 + j] == #[trigger] d[j],
        v[1] - lo - v[2] == t,
    ensures
        gate_value(power_gate(f, lo, n), v, coins) == power_of(f, o, d, t, n),
    decreases n,
{
    if n > 0 {
        lemma_power_gate(f, lo, n - 1, v, coins, o, d, t);
        let term = f.pow[n - 1];
        lemma_ex_gate(term.0, 7, v, coins, 200, 0);
        reveal_with_fuel(gate_value, 4);
        match term.1 {
            PowTerm::Digit(j) => {
                assert(v[3 + j as int] == d[j as int]);
            },
            PowTerm::Flat => {
                assert(gate_value(flat_gate(lo, 1), v, coins) == t);
            },
        }
    } else {
        lemma_ex_gate(f.pow_const, 7, v, coins, 200, 0);
    }
}

/// The powers of the entries of the families are what they should be.
#[verifier::rlimit(40)]
#[verifier::spinoff_prover]
pub proof fn lemma_check_powers(e: EncodingView, c: CircuitView, chals: Seq<int>)
    requires
        registrable(e, c),
    ensures
        check_holds(circuit_vectors(e, c), check_powers(circuit_profile(e, c)), chals),
{
    let f = circuit_vectors(e, c);
    let p = circuit_profile(e, c);
    let x = check_powers(p);
    let len = pow2(x.log_len as nat) as int;
    let gs = power_gates(p);
    lemma_families();
    lemma_lens(e);
    assert forall|j: int| 0 <= j < len implies cong(
        gate_value(x.gate, #[trigger] row_at(columns_of(f, x.tables, len), j), chals),
        0,
    ) by {
        let v = row_at(columns_of(f, x.tables, len), j);
        lemma_row_cells(f, x.tables, len, j);
        lemma_family_cells(e, c, j);
        assert(x.tables.len() == 25);
        assert forall|k: int| 0 <= k < NUM_FAMILIES implies v[#[trigger] (13 + k)] == column_of(
            f,
            fam_ind(p, k),
            len,
        )[j] by {
            assert(x.tables[13 + k] == fam_ind(p, k));
        }
        assert forall|k: int| 0 <= k < gs.len() implies gate_value(#[trigger] gs[k], v, chals)
            == 0 by {
            let fam = families_of()[k];
            let lo = fam_lo(p, k);
            let pw = gate_value(power_gate(fam, lo, fam.pow.len() as int), v, chals);
            lemma_cumulated(family_lens_of(e), k, NUM_FAMILIES as int);
            reveal_with_fuel(gate_value, 3);
            assert(v[13 + k] == column_of(f, fam_ind(p, k), len)[j]);
            assert(gate_value(gs[k], v, chals) == v[13 + k] * (v[0] - pw));
            assert(0 * (v[0] - pw) == 0);
            assert(1 * 0 == 0);
            if j < p.x_len {
                let at = lemma_x_row(e, NUM_FAMILIES as int, j);
                lemma_fam_inds(e, c, f, len, j, at.0);
                if k == at.0 {
                    lemma_entry_coordinates(e, at.0, at.1, at.2);
                    let row = x_rows(e, NUM_FAMILIES as int)[j];
                    let o = operands_of(e, at.1);
                    let d = coordinates(sides_of(fam, o), at.2);
                    assert(x.tables[0] == Tab::XPow && x.tables[1] == Tab::Identity
                        && x.tables[2] == Tab::XBase);
                    assert(v[0] == row.pow && v[1] == j && v[2] == row.base);
                    let o1 = Seq::new(NUM_OPERANDS as nat, |u: int| v[7 + u]);
                    assert forall|u: int| 0 <= u < NUM_OPERANDS implies o1[u] == o[u] by {
                        assert(x.tables[7 + u] == Tab::XOp(u as usize));
                    }
                    assert(o1 =~= o);
                    assert forall|s: int| 0 <= s < d.len() implies v[3 + s] == #[trigger] d[s] by {
                        assert(x.tables[3 + s] == Tab::XDigit(s as usize));
                        assert(v[3 + s] == row.digits[s]);
                    }
                    lemma_power_gate(fam, lo, fam.pow.len() as int, v, chals, o1, d, at.2);
                }
            } else {
                lemma_no_fam_inds(e, c, f, len, j);
            }
        }
        lemma_joined_zero(7, gs, 0, v, chals);
    }
}

} // verus!
