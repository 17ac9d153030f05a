//! What the zero checks of the rules say of any vectors.
use vstd::prelude::*;
use vstd::arithmetic::power2::*;
use crate::field::{cong, lemma_cong_ops};
use crate::replay::row_at;
use crate::soundness::all_zero;
use crate::sparse::one_if;
use crate::sumcheck::{Gate, gate_value, lemma_log2_ceil, log2_ceil};
use super::accepted::check_holds;
use super::certificate::columns_of;
use super::encode::{NUM_OPCODES, NUM_OPERANDS, Opcode, deltas_of};
use super::family::{
    MAX_DIGITS, NUM_FAMILIES, ex_value, families_of, family_size, lemma_ex_gate, lemma_families,
};
use super::family_laws::{lemma_number_gate, lemma_power_gate, number_of};
use super::found::cell;
use super::relation::{
    CheckView, Tab, block_gates, check_blocks, check_increments, check_inputs, check_masks,
    check_plain_powers, check_positions, check_powers, check_prefix_mask, check_prefix_powers,
    check_prefix_slack, check_read_slack, check_selectors, check_sides, check_sizes, fam_ind,
    fam_lo, flat_gate, ind, joined_gates, left_gate, left_gates, mask_gates, number_gate,
    position_gates, power_gate, power_gates, seg_ind, selector_gates, size_gates, unused_gate,
    zero_checks_of,
};
use super::witness::{ProfileView, lemma_cumulated, power_of, profile_fits, sides_of};
use super::zero_laws::{
    lemma_increment_gate, lemma_increment_terms, lemma_row_cells, lemma_sides_gate,
};

verus! {

/// All the zero checks of a profile hold.
pub open spec fn all_hold(f: spec_fn(Tab) -> Seq<int>, p: ProfileView, chals: Seq<int>) -> bool {
    forall|k: int|
        0 <= k < zero_checks_of(p).len() ==> check_holds(f, #[trigger] zero_checks_of(p)[k], chals)
}

/// The values of a list from place `k` on, joined by the powers of a coin.
pub open spec fn joined_value(x: int, vals: Seq<int>, k: int) -> int
    decreases vals.len() - k,
{
    if k >= vals.len() {
        0
    } else {
        x * (vals[k] + joined_value(x, vals, k + 1))
    }
}

/// The errors are zero, unless the coin that joins them is a root of the polynomial that
/// they make.
pub open spec fn none_or_root(x: int, errors: Seq<int>) -> bool {
    all_zero(errors) || cong(joined_value(x, errors, 0), 0) && !all_zero(errors)
}

proof fn lemma_joined(
    x: int,
    gs: Seq<Gate>,
    errors: Seq<int>,
    k: int,
    v: Seq<int>,
    coins: Seq<int>,
)
    requires
        0 <= k,
        0 <= x <= usize::MAX,
        gs.len() == errors.len(),
        forall|i: int| 0 <= i < gs.len() ==> gate_value(#[trigger] gs[i], v, coins) == errors[i],
    ensures
        gate_value(joined_gates(x, gs, k), v, coins) == joined_value(coins[x], errors, k),
    decreases gs.len() - k,
{
    reveal_with_fuel(gate_value, 4);
    if k < gs.len() {
        lemma_joined(x, gs, errors, k + 1, v, coins);
    }
}

/// The expression of a check at a place, over the values of its vectors there.
proof fn lemma_at(
    f: spec_fn(Tab) -> Seq<int>,
    x: CheckView,
    chals: Seq<int>,
    j: int,
) -> (v: Seq<int>)
    requires
        check_holds(f, x, chals),
        0 <= j < pow2(x.log_len as nat),
    ensures
        v.len() == x.tables.len(),
        forall|k: int|
            0 <= k < x.tables.len() ==> #[trigger] v[k] == cell(
                f,
                x.tables[k],
                x.log_len as nat,
                j,
            ),
        cong(gate_value(x.gate, v, chals), 0),
{
    let len = pow2(x.log_len as nat) as int;
    lemma_row_cells(f, x.tables, len, j);
    row_at(columns_of(f, x.tables, len), j)
}

/// The squares of the selectors less the selectors, and the sum of the selectors less one on
/// the instructions and less zero behind them.
pub open spec fn selector_errors(f: spec_fn(Tab) -> Seq<int>, p: ProfileView, j: int) -> Seq<int> {
    let log = log2_ceil(p.instr_count + 1);
    let s = |k: usize| cell(f, Tab::Sel(k), log, j);
    let one = if j < p.instr_count {
        1int
    } else {
        0
    };
    seq![
        s(0) * (s(0) - 1),
        s(1) * (s(1) - 1),
        s(2) * (s(2) - 1),
        s(3) * (s(3) - 1),
        s(4) * (s(4) - 1),
        s(0) + s(1) + s(2) + s(3) + s(4) - one,
    ]
}

/// At each place each selector is its own square, and the selectors add up to one on the
/// instructions and to zero behind them.
pub proof fn law_selectors_one(
    f: spec_fn(Tab) -> Seq<int>,
    p: ProfileView,
    chals: Seq<int>,
    j: int,
)
    requires
        profile_fits(p),
        all_hold(f, p, chals),
        0 <= j < pow2(log2_ceil(p.instr_count + 1)),
    ensures
        none_or_root(chals[0], selector_errors(f, p, j)),
{
    reveal(zero_checks_of);
    let x = check_selectors(p);
    assert(zero_checks_of(p)[0] == x);
    let v = lemma_at(f, x, chals, j);
    let e = selector_errors(f, p, j);
    let gs = selector_gates();
    let log = log2_ceil(p.instr_count + 1);
    assert(v[0] == cell(f, Tab::Sel(0), log, j));
    assert(v[1] == cell(f, Tab::Sel(1), log, j));
    assert(v[2] == cell(f, Tab::Sel(2), log, j));
    assert(v[3] == cell(f, Tab::Sel(3), log, j));
    assert(v[4] == cell(f, Tab::Sel(4), log, j));
    assert(v[5] == cell(f, ind(0, p.instr_count), log, j));
    assert forall|i: int| 0 <= i < gs.len() implies gate_value(#[trigger] gs[i], v, chals)
        == e[i] by {
        reveal_with_fuel(gate_value, 7);
        assert(i == 0 || i == 1 || i == 2 || i == 3 || i == 4 || i == 5);
    }
    lemma_joined(0, gs, e, 0, v, chals);
}

/// The operands at a place.
pub open spec fn operands_at(f: spec_fn(Tab) -> Seq<int>, log: nat, j: int) -> Seq<int> {
    Seq::new(NUM_OPERANDS as nat, |s: int| cell(f, Tab::Opn(s as usize), log, j))
}

/// What the counters are said to grow by, less what an instruction of a kind takes.
pub open spec fn increment_errors(
    f: spec_fn(Tab) -> Seq<int>,
    p: ProfileView,
    k: Opcode,
    j: int,
) -> Seq<int> {
    let log = log2_ceil(p.instr_count + 1);
    let d = deltas_of(k, operands_at(f, log, j));
    seq![
        cell(f, Tab::DCtr(0), log, j) - d.out,
        cell(f, Tab::DCtr(1), log, j) - d.aux,
        cell(f, Tab::DCtr(2), log, j) - d.cr,
        cell(f, Tab::DCtr(3), log, j) - d.lr,
    ]
}

/// Where the selectors pick one kind of instruction, the counters grow by what an instruction
/// of that kind with the operands takes; unless the coins make the errors cancel.
pub proof fn law_increments_right(
    f: spec_fn(Tab) -> Seq<int>,
    p: ProfileView,
    chals: Seq<int>,
    k: Opcode,
    j: int,
)
    requires
        profile_fits(p),
        all_hold(f, p, chals),
        0 <= j < pow2(log2_ceil(p.instr_count + 1)),
        forall|s: usize|
            s < 5 ==> #[trigger] cell(f, Tab::Sel(s), log2_ceil(p.instr_count + 1), j) == one_if(
                k.number() == s,
            ),
    ensures
        ({
            let e = increment_errors(f, p, k, j);
            all_zero(e) || !all_zero(e) && cong(
                chals[1] * e[0] + chals[2] * e[1] + chals[3] * e[2] + chals[4] * e[3],
                0,
            )
        }),
{
    reveal(zero_checks_of);
    let x = check_increments(p);
    assert(zero_checks_of(p)[1] == x);
    let v = lemma_at(f, x, chals, j);
    let log = log2_ceil(p.instr_count + 1);
    let s = seq![v[0], v[1], v[2], v[3], v[4]];
    let o = operands_at(f, log, j);
    assert(v[0] == cell(f, Tab::Sel(0), log, j));
    assert(v[1] == cell(f, Tab::Sel(1), log, j));
    assert(v[2] == cell(f, Tab::Sel(2), log, j));
    assert(v[3] == cell(f, Tab::Sel(3), log, j));
    assert(v[4] == cell(f, Tab::Sel(4), log, j));
    assert(v[5] == o[0] && v[6] == o[1] && v[7] == o[2] && v[8] == o[3]);
    assert(v[11] == cell(f, Tab::DCtr(0), log, j));
    assert(v[12] == cell(f, Tab::DCtr(1), log, j));
    assert(v[13] == cell(f, Tab::DCtr(2), log, j));
    assert(v[14] == cell(f, Tab::DCtr(3), log, j));
    lemma_increment_gate(v, chals);
    lemma_increment_terms(s, o, k);
}

/// The numbers of entries in the families, less what the selectors and the operands say.
pub open spec fn size_errors(f: spec_fn(Tab) -> Seq<int>, p: ProfileView, j: int) -> Seq<int> {
    let log = log2_ceil(p.instr_count + 1);
    Seq::new(
        NUM_FAMILIES as nat,
        |k: int|
            cell(f, Tab::Mult(k as usize), log, j) - cell(
                f,
                Tab::Sel(families_of()[k].opcode.number() as usize),
                log,
                j,
            ) * family_size(families_of()[k], operands_at(f, log, j)),
    )
}

/// An instruction has in each family the entries of a grid of the sides that the operands
/// give, if it is of the kind of the family, and none otherwise.
#[verifier::rlimit(30)]
pub proof fn law_sizes_right(
    f: spec_fn(Tab) -> Seq<int>,
    p: ProfileView,
    chals: Seq<int>,
    j: int,
)
    requires
        profile_fits(p),
        all_hold(f, p, chals),
        0 <= j < pow2(log2_ceil(p.instr_count + 1)),
    ensures
        none_or_root(chals[6], size_errors(f, p, j)),
{
    reveal(zero_checks_of);
    let x = check_sizes(p);
    assert(zero_checks_of(p)[2] == x);
    let v = lemma_at(f, x, chals, j);
    let log = log2_ceil(p.instr_count + 1);
    let e = size_errors(f, p, j);
    let gs = size_gates();
    let o = operands_at(f, log, j);
    lemma_families();
    let o1 = Seq::new(NUM_OPERANDS as nat, |s: int| v[NUM_OPCODES as int + s]);
    assert(o1 =~= o) by {
        assert forall|s: int| 0 <= s < NUM_OPERANDS implies o1[s] == o[s] by {
            assert(x.tables[5 + s] == Tab::Opn(s as usize));
        }
    }
    assert forall|i: int| 0 <= i < gs.len() implies gate_value(#[trigger] gs[i], v, chals)
        == e[i] by {
        let fam = families_of()[i];
        let n = fam.radices.len() as int;
        lemma_sides_gate(fam, NUM_OPCODES as int, n, v, chals, o1);
        reveal_with_fuel(gate_value, 3);
        let m = fam.opcode.number();
        assert(0 <= m < 5);
        assert(x.tables[m] == Tab::Sel(m as usize));
        assert(x.tables[11 + i] == Tab::Mult(i as usize));
        assert(v[m] == cell(f, Tab::Sel(m as usize), log, j));
        assert(v[11 + i] == cell(f, Tab::Mult(i as usize), log, j));
    }
    lemma_joined(6, gs, e, 0, v, chals);
}

/// One on the entries of the constraint matrices that belong to products and of the inputs of
/// lookups, as the masks say.
pub open spec fn plain_at(f: spec_fn(Tab) -> Seq<int>, p: ProfileView, j: int) -> int {
    let log = log2_ceil(p.entry_len);
    cell(f, seg_ind(p, 0), log, j) + cell(f, seg_ind(p, 1), log, j) + cell(
        f,
        seg_ind(p, 3),
        log,
        j,
    ) - cell(f, Tab::MaskA, log, j) - cell(f, Tab::MaskB, log, j)
}

/// The slack of a plain entry is what is between its column and what its row may read, and it
/// has no power.
pub proof fn law_plain_entries(
    f: spec_fn(Tab) -> Seq<int>,
    p: ProfileView,
    chals: Seq<int>,
    j: int,
)
    requires
        profile_fits(p),
        all_hold(f, p, chals),
        0 <= j < pow2(log2_ceil(p.entry_len)),
    ensures
        ({
            let log = log2_ceil(p.entry_len);
            let col = p.weight_len + cell(f, Tab::Col, log, j);
            &&& cong(
                cell(f, Tab::Diff, log, j),
                plain_at(f, p, j) * (cell(f, Tab::MaxRead, log, j) - col - 1),
            )
            &&& cong(plain_at(f, p, j) * cell(f, Tab::Pow, log, j), 0)
        }),
{
    reveal(zero_checks_of);
    let log = log2_ceil(p.entry_len);
    let x = check_read_slack(p);
    assert(zero_checks_of(p)[3] == x);
    let v = lemma_at(f, x, chals, j);
    assert(v[0] == cell(f, Tab::Diff, log, j));
    assert(v[1] == cell(f, Tab::MaxRead, log, j));
    assert(v[2] == cell(f, Tab::Col, log, j));
    assert(v[3] == cell(f, seg_ind(p, 0), log, j));
    assert(v[4] == cell(f, seg_ind(p, 1), log, j));
    assert(v[5] == cell(f, seg_ind(p, 3), log, j));
    assert(v[6] == cell(f, Tab::MaskA, log, j));
    assert(v[7] == cell(f, Tab::MaskB, log, j));
    let r = plain_at(f, p, j) * (v[1] - (p.weight_len + v[2]) - 1);
    assert(gate_value(x.gate, v, chals) == v[0] - r) by {
        reveal_with_fuel(gate_value, 7);
        assert(v[1] - p.weight_len - v[2] - 1 == v[1] - (p.weight_len + v[2]) - 1);
    }
    lemma_cong_ops(v[0] - r, 0, r, r);
    let y = check_plain_powers(p);
    assert(zero_checks_of(p)[6] == y);
    let w = lemma_at(f, y, chals, j);
    assert(w[0] == cell(f, Tab::Pow, log, j));
    assert(w[1] == cell(f, seg_ind(p, 0), log, j));
    assert(w[2] == cell(f, seg_ind(p, 1), log, j));
    assert(w[3] == cell(f, seg_ind(p, 3), log, j));
    assert(w[4] == cell(f, Tab::MaskA, log, j));
    assert(w[5] == cell(f, Tab::MaskB, log, j));
    assert(gate_value(y.gate, w, chals) == plain_at(f, p, j) * w[0]) by {
        reveal_with_fuel(gate_value, 7);
    }
}

/// The slack of an entry on the parameters is what is between its column and their end; its
/// mask is the mark of its row; and without the mask it has no power.
pub proof fn law_prefix_entries(
    f: spec_fn(Tab) -> Seq<int>,
    p: ProfileView,
    chals: Seq<int>,
    j: int,
)
    requires
        profile_fits(p),
        all_hold(f, p, chals),
        0 <= j < p.b_pre_len,
    ensures
        ({
            let log = log2_ceil(p.b_pre_len);
            &&& cong(cell(f, Tab::DiffPre, log, j), p.weight_len - 1 - cell(f, Tab::BCol, log, j))
            &&& cong(cell(f, Tab::MaskPre, log, j), cell(f, Tab::BEntLin, log, j))
            &&& cong((1 - cell(f, Tab::MaskPre, log, j)) * cell(f, Tab::BPow, log, j), 0)
        }),
{
    reveal(zero_checks_of);
    let log = log2_ceil(p.b_pre_len);
    lemma_log2_ceil(p.b_pre_len);
    assert(cell(f, ind(0, p.b_pre_len), log, j) == 1);
    let x = check_prefix_slack(p);
    assert(zero_checks_of(p)[4] == x);
    let v = lemma_at(f, x, chals, j);
    assert(v[0] == cell(f, Tab::DiffPre, log, j));
    assert(v[1] == cell(f, Tab::BCol, log, j));
    assert(v[2] == cell(f, ind(0, p.b_pre_len), log, j));
    let r = p.weight_len - 1 - v[1];
    assert(gate_value(x.gate, v, chals) == v[0] - r) by {
        reveal_with_fuel(gate_value, 7);
        assert(1 * r == r);
    }
    lemma_cong_ops(v[0] - r, 0, r, r);
    let y = check_prefix_powers(p);
    assert(zero_checks_of(p)[7] == y);
    let w = lemma_at(f, y, chals, j);
    assert(w[0] == cell(f, Tab::BPow, log, j));
    assert(w[1] == cell(f, ind(0, p.b_pre_len), log, j));
    assert(w[2] == cell(f, Tab::MaskPre, log, j));
    assert(gate_value(y.gate, w, chals) == (1 - w[2]) * w[0]) by {
        reveal_with_fuel(gate_value, 7);
    }
    let z = check_prefix_mask(p);
    assert(zero_checks_of(p)[9] == z);
    let u = lemma_at(f, z, chals, j);
    assert(u[0] == cell(f, Tab::MaskPre, log, j));
    assert(u[1] == cell(f, Tab::BEntLin, log, j));
    assert(u[2] == cell(f, ind(0, p.b_pre_len), log, j));
    assert(gate_value(z.gate, u, chals) == u[0] - u[1]) by {
        reveal_with_fuel(gate_value, 7);
        assert(1 * u[1] == u[1]);
    }
    lemma_cong_ops(u[0] - u[1], 0, u[1], u[1]);
}

/// Only the rows of lookups are fetched for inputs.
pub proof fn law_inputs_fetched(
    f: spec_fn(Tab) -> Seq<int>,
    p: ProfileView,
    chals: Seq<int>,
    j: int,
)
    requires
        profile_fits(p),
        all_hold(f, p, chals),
        0 <= j < pow2(log2_ceil(p.lu_line)),
        cong(cell(f, Tab::IsLookup, log2_ceil(p.lu_line), j), 0),
    ensures
        cong(cell(f, Tab::CntL, log2_ceil(p.lu_line), j), 0),
{
    reveal(zero_checks_of);
    let log = log2_ceil(p.lu_line);
    let x = check_inputs(p);
    assert(zero_checks_of(p)[5] == x);
    let v = lemma_at(f, x, chals, j);
    assert(v[0] == cell(f, Tab::CntL, log, j));
    assert(v[1] == cell(f, Tab::IsLookup, log, j));
    assert(gate_value(x.gate, v, chals) == v[0] * (1 - v[1])) by {
        reveal_with_fuel(gate_value, 7);
    }
    lemma_cong_ops(1, 1, v[1], 0);
    lemma_cong_ops(v[0], v[0], 1 - v[1], 1);
    assert(v[0] * 1 == v[0]);
}

/// The masks of the entries, less the marks of the rows on the entries of each matrix.
pub open spec fn mask_errors(f: spec_fn(Tab) -> Seq<int>, p: ProfileView, j: int) -> Seq<int> {
    let log = log2_ceil(p.entry_len);
    let mark = cell(f, Tab::EntLin, log, j);
    seq![
        cell(f, Tab::MaskA, log, j) - cell(f, seg_ind(p, 0), log, j) * mark,
        cell(f, Tab::MaskB, log, j) - cell(f, seg_ind(p, 1), log, j) * mark,
        cell(f, Tab::MaskC, log, j) - cell(f, seg_ind(p, 2), log, j) * mark,
    ]
}

/// The mask of each constraint matrix is the mark of the row on its entries, and zero on the
/// others.
pub proof fn law_masks_right(
    f: spec_fn(Tab) -> Seq<int>,
    p: ProfileView,
    chals: Seq<int>,
    j: int,
)
    requires
        profile_fits(p),
        all_hold(f, p, chals),
        0 <= j < pow2(log2_ceil(p.entry_len)),
    ensures
        none_or_root(chals[5], mask_errors(f, p, j)),
{
    reveal(zero_checks_of);
    let log = log2_ceil(p.entry_len);
    let x = check_masks(p);
    assert(zero_checks_of(p)[8] == x);
    let v = lemma_at(f, x, chals, j);
    let e = mask_errors(f, p, j);
    let gs = mask_gates();
    assert(v[0] == cell(f, Tab::MaskA, log, j));
    assert(v[1] == cell(f, Tab::MaskB, log, j));
    assert(v[2] == cell(f, Tab::MaskC, log, j));
    assert(v[3] == cell(f, Tab::EntLin, log, j));
    assert(v[4] == cell(f, seg_ind(p, 0), log, j));
    assert(v[5] == cell(f, seg_ind(p, 1), log, j));
    assert(v[6] == cell(f, seg_ind(p, 2), log, j));
    assert forall|i: int| 0 <= i < gs.len() implies gate_value(#[trigger] gs[i], v, chals)
        == e[i] by {
        reveal_with_fuel(gate_value, 5);
        assert(i == 0 || i == 1 || i == 2);
    }
    lemma_joined(5, gs, e, 0, v, chals);
}

/// The slacks of a constraint row, less its distances from the ends of the block of its
/// instruction.
pub open spec fn block_errors(f: spec_fn(Tab) -> Seq<int>, p: ProfileView, j: int) -> Seq<int> {
    let log = log2_ceil(p.cons_line);
    let start = cell(f, Tab::RowCr, log, j);
    let end = start + cell(f, Tab::RowDcr, log, j);
    seq![
        cell(f, Tab::RowSlackLo, log, j) - (j - start),
        cell(f, Tab::RowSlackHi, log, j) - (end - 1 - j),
    ]
}

/// The slacks of a constraint row are its distances from the ends of the block of its
/// instruction.
pub proof fn law_blocks_right(
    f: spec_fn(Tab) -> Seq<int>,
    p: ProfileView,
    chals: Seq<int>,
    j: int,
)
    requires
        profile_fits(p),
        all_hold(f, p, chals),
        0 <= j < p.cons_line,
    ensures
        none_or_root(chals[5], block_errors(f, p, j)),
{
    reveal(zero_checks_of);
    let log = log2_ceil(p.cons_line);
    lemma_log2_ceil(p.cons_line);
    let x = check_blocks(p);
    assert(zero_checks_of(p)[10] == x);
    let v = lemma_at(f, x, chals, j);
    let e = block_errors(f, p, j);
    let gs = block_gates();
    assert(v[0] == cell(f, Tab::RowSlackLo, log, j));
    assert(v[1] == cell(f, Tab::RowSlackHi, log, j));
    assert(v[2] == cell(f, Tab::RowCr, log, j));
    assert(v[3] == cell(f, Tab::RowDcr, log, j));
    assert(v[4] == cell(f, Tab::Identity, log, j));
    assert(v[5] == cell(f, ind(0, p.cons_line), log, j));
    assert(v[4] == j && v[5] == 1);
    assert forall|i: int| 0 <= i < gs.len() implies gate_value(#[trigger] gs[i], v, chals)
        == e[i] by {
        reveal_with_fuel(gate_value, 7);
        assert(i == 0 || i == 1);
    }
    lemma_joined(5, gs, e, 0, v, chals);
}

/// The operands of an entry of a family.
pub open spec fn entry_operands(f: spec_fn(Tab) -> Seq<int>, log: nat, j: int) -> Seq<int> {
    Seq::new(NUM_OPERANDS as nat, |s: int| cell(f, Tab::XOp(s as usize), log, j))
}

/// The first `n` coordinates of an entry of a family.
pub open spec fn entry_digits(f: spec_fn(Tab) -> Seq<int>, log: nat, j: int, n: nat) -> Seq<int> {
    Seq::new(n, |s: int| cell(f, Tab::XDigit(s as usize), log, j))
}

/// The sum of the coordinates of an entry from one on.
pub open spec fn digits_behind(f: spec_fn(Tab) -> Seq<int>, log: nat, j: int, k: int) -> int
    decreases MAX_DIGITS - k,
{
    if k >= MAX_DIGITS {
        0
    } else {
        cell(f, Tab::XDigit(k as usize), log, j) + digits_behind(f, log, j, k + 1)
    }
}

/// The number of an entry of a family among those of its instruction.
pub open spec fn entry_number(
    f: spec_fn(Tab) -> Seq<int>,
    p: ProfileView,
    k: int,
    j: int,
) -> int {
    j - fam_lo(p, k) - cell(f, Tab::XBase, log2_ceil(p.x_len), j)
}

proof fn lemma_behind(
    f: spec_fn(Tab) -> Seq<int>,
    log: nat,
    j: int,
    k: int,
    v: Seq<int>,
    coins: Seq<int>,
)
    requires
        0 <= k,
        forall|s: int|
            0 <= s < MAX_DIGITS ==> v[#[trigger] (2 + s)] == cell(
                f,
                Tab::XDigit(s as usize),
                log,
                j,
            ),
    ensures
        gate_value(unused_gate(2, k), v, coins) == digits_behind(f, log, j, k),
    decreases MAX_DIGITS - k,
{
    reveal_with_fuel(gate_value, 2);
    if k < MAX_DIGITS {
        lemma_behind(f, log, j, k + 1, v, coins);
        assert(v[2 + k] == cell(f, Tab::XDigit(k as usize), log, j));
    }
}

/// On the entries of each family, the number of the entry less the number that its
/// coordinates make, and the coordinates that the family has no use for.
pub open spec fn position_errors(f: spec_fn(Tab) -> Seq<int>, p: ProfileView, j: int) -> Seq<int> {
    let log = log2_ceil(p.x_len);
    Seq::new(
        NUM_FAMILIES as nat,
        |k: int|
            {
                let fam = families_of()[k];
                let n = fam.radices.len();
                let sides = sides_of(fam, entry_operands(f, log, j));
                cell(f, fam_ind(p, k), log, j) * (entry_number(f, p, k, j) - number_of(
                    sides,
                    entry_digits(f, log, j, n),
                    n as int,
                ) + digits_behind(f, log, j, n as int))
            },
    )
}

/// The coordinates of an entry of a family make its number among the entries of its
/// instruction there.
#[verifier::rlimit(40)]
pub proof fn law_positions_right(
    f: spec_fn(Tab) -> Seq<int>,
    p: ProfileView,
    chals: Seq<int>,
    j: int,
)
    requires
        profile_fits(p),
        all_hold(f, p, chals),
        0 <= j < pow2(log2_ceil(p.x_len)),
    ensures
        none_or_root(chals[7], position_errors(f, p, j)),
{
    reveal(zero_checks_of);
    let log = log2_ceil(p.x_len);
    let x = check_positions(p);
    assert(zero_checks_of(p)[11] == x);
    let v = lemma_at(f, x, chals, j);
    let e = position_errors(f, p, j);
    let gs = position_gates(p);
    let o = entry_operands(f, log, j);
    lemma_families();
    assert(x.tables.len() == 24);
    assert(x.tables[0] == Tab::Identity && x.tables[1] == Tab::XBase);
    assert(v[0] == j && v[1] == cell(f, Tab::XBase, log, j));
    assert forall|s: int| 0 <= s < MAX_DIGITS implies v[#[trigger] (2 + s)] == cell(
        f,
        Tab::XDigit(s as usize),
        log,
        j,
    ) by {
        assert(x.tables[2 + s] == Tab::XDigit(s as usize));
    }
    let o1 = Seq::new(NUM_OPERANDS as nat, |s: int| v[6 + s]);
    assert(o1 =~= o) by {
        assert forall|s: int| 0 <= s < NUM_OPERANDS implies o1[s] == o[s] by {
            assert(x.tables[6 + s] == Tab::XOp(s as usize));
        }
    }
    assert forall|k: int| 0 <= k < gs.len() implies gate_value(#[trigger] gs[k], v, chals)
        == e[k] by {
        let fam = families_of()[k];
        let n = fam.radices.len();
        let d = entry_digits(f, log, j, n);
        let lo = fam_lo(p, k);
        lemma_cumulated(p.family_lens, 0, k);
        lemma_cumulated(p.family_lens, k, NUM_FAMILIES as int);
        assert forall|s: int| 0 <= s < d.len() implies v[2 + s] == #[trigger] d[s] by {
            assert(v[2 + s] == cell(f, Tab::XDigit(s as usize), log, j));
        }
        lemma_number_gate(fam, 2, 6, n as int, v, chals, o1, d);
        lemma_behind(f, log, j, n as int, v, chals);
        let a = gate_value(flat_gate(lo, 0), v, chals);
        let b = gate_value(number_gate(fam, 2, 6, n as int), v, chals);
        let z = gate_value(unused_gate(2, n as int), v, chals);
        assert(x.tables[12 + k] == fam_ind(p, k));
        assert(v[12 + k] == cell(f, fam_ind(p, k), log, j));
        reveal_with_fuel(gate_value, 4);
        assert(a == v[0] - lo - v[1]);
        assert(gate_value(gs[k], v, chals) == v[12 + k] * (a - b + z));
    }
    lemma_joined(7, gs, e, 0, v, chals);
}

/// On the entries of each family, the slack of each coordinate less what is between the
/// coordinate and its side.
pub open spec fn side_errors(f: spec_fn(Tab) -> Seq<int>, p: ProfileView, j: int) -> Seq<int> {
    let log = log2_ceil(p.x_len);
    Seq::new(
        (NUM_FAMILIES * MAX_DIGITS) as nat,
        |t: int|
            {
                let k = t / MAX_DIGITS as int;
                let s = t % MAX_DIGITS as int;
                let fam = families_of()[k];
                let left = if s < fam.radices.len() {
                    ex_value(fam.radices[s], entry_operands(f, log, j)) - 1 - cell(
                        f,
                        Tab::XDigit(s as usize),
                        log,
                        j,
                    )
                } else {
                    0
                };
                cell(f, fam_ind(p, k), log, j) * (cell(f, Tab::XDigitSlack(s as usize), log, j)
                    - left)
            },
    )
}

/// The slack of each coordinate of an entry of a family is what is between the coordinate and
/// its side.
#[verifier::rlimit(40)]
pub proof fn law_sides_right(
    f: spec_fn(Tab) -> Seq<int>,
    p: ProfileView,
    chals: Seq<int>,
    j: int,
)
    requires
        profile_fits(p),
        all_hold(f, p, chals),
        0 <= j < pow2(log2_ceil(p.x_len)),
    ensures
        none_or_root(chals[7], side_errors(f, p, j)),
{
    reveal(zero_checks_of);
    let log = log2_ceil(p.x_len);
    let x = check_sides(p);
    assert(zero_checks_of(p)[12] == x);
    let v = lemma_at(f, x, chals, j);
    let e = side_errors(f, p, j);
    let gs = left_gates();
    let o = entry_operands(f, log, j);
    lemma_families();
    assert(x.tables.len() == 26);
    let o1 = Seq::new(NUM_OPERANDS as nat, |s: int| v[8 + s]);
    assert(o1 =~= o) by {
        assert forall|s: int| 0 <= s < NUM_OPERANDS implies o1[s] == o[s] by {
            assert(x.tables[8 + s] == Tab::XOp(s as usize));
        }
    }
    assert forall|t: int| 0 <= t < gs.len() implies gate_value(#[trigger] gs[t], v, chals)
        == e[t] by {
        let k = t / MAX_DIGITS as int;
        let s = t % MAX_DIGITS as int;
        let fam = families_of()[k];
        let left = gate_value(left_gate(fam, s), v, chals);
        assert(0 <= k < NUM_FAMILIES && 0 <= s < MAX_DIGITS);
        assert(x.tables[14 + k] == fam_ind(p, k));
        assert(v[14 + k] == cell(f, fam_ind(p, k), log, j));
        assert(x.tables[s] == Tab::XDigitSlack(s as usize));
        assert(v[s] == cell(f, Tab::XDigitSlack(s as usize), log, j));
        assert(x.tables[4 + s] == Tab::XDigit(s as usize));
        assert(v[4 + s] == cell(f, Tab::XDigit(s as usize), log, j));
        reveal_with_fuel(gate_value, 3);
        assert(gate_value(gs[t], v, chals) == v[14 + k] * (v[s] - left));
        if s < fam.radices.len() {
            lemma_ex_gate(fam.radices[s], 8, v, chals, 200, 0);
            reveal_with_fuel(gate_value, 4);
            assert(left == ex_value(fam.radices[s], o) - 1 - v[4 + s]);
        }
    }
    lemma_joined(7, gs, e, 0, v, chals);
}

/// On the entries of each family, the power of the entry less what its coordinates and its
/// number make.
pub open spec fn power_errors(f: spec_fn(Tab) -> Seq<int>, p: ProfileView, j: int) -> Seq<int> {
    let log = log2_ceil(p.x_len);
    Seq::new(
        NUM_FAMILIES as nat,
        |k: int|
            {
                let fam = families_of()[k];
                cell(f, fam_ind(p, k), log, j) * (cell(f, Tab::XPow, log, j) - power_of(
                    fam,
                    entry_operands(f, log, j),
                    entry_digits(f, log, j, fam.radices.len()),
                    entry_number(f, p, k, j),
                    fam.pow.len() as int,
                ))
            },
    )
}

/// The power of an entry of a family is what its coordinates and its number make.
#[verifier::rlimit(40)]
pub proof fn law_powers_right(
    f: spec_fn(Tab) -> Seq<int>,
    p: ProfileView,
    chals: Seq<int>,
    j: int,
)
    requires
        profile_fits(p),
        all_hold(f, p, chals),
        0 <= j < pow2(log2_ceil(p.x_len)),
    ensures
        none_or_root(chals[7], power_errors(f, p, j)),
{
    reveal(zero_checks_of);
    let log = log2_ceil(p.x_len);
    let x = check_powers(p);
    assert(zero_checks_of(p)[13] == x);
    let v = lemma_at(f, x, chals, j);
    let e = power_errors(f, p, j);
    let gs = power_gates(p);
    let o = entry_operands(f, log, j);
    lemma_families();
    assert(x.tables.len() == 25);
    assert(x.tables[0] == Tab::XPow && x.tables[1] == Tab::Identity && x.tables[2] == Tab::XBase);
    assert(v[0] == cell(f, Tab::XPow, log, j));
    assert(v[1] == j && v[2] == cell(f, Tab::XBase, log, j));
    let o1 = Seq::new(NUM_OPERANDS as nat, |s: int| v[7 + s]);
    assert(o1 =~= o) by {
        assert forall|s: int| 0 <= s < NUM_OPERANDS implies o1[s] == o[s] by {
            assert(x.tables[7 + s] == Tab::XOp(s as usize));
        }
    }
    assert forall|k: int| 0 <= k < gs.len() implies gate_value(#[trigger] gs[k], v, chals)
        == e[k] by {
        let fam = families_of()[k];
        let d = entry_digits(f, log, j, fam.radices.len());
        let lo = fam_lo(p, k);
        lemma_cumulated(p.family_lens, 0, k);
        lemma_cumulated(p.family_lens, k, NUM_FAMILIES as int);
        assert forall|s: int| 0 <= s < d.len() implies v[3 + s] == #[trigger] d[s] by {
            assert(x.tables[3 + s] == Tab::XDigit(s as usize));
        }
        lemma_power_gate(
            fam,
            lo,
            fam.pow.len() as int,
            v,
            chals,
            o1,
            d,
            entry_number(f, p, k, j),
        );
        let pw = gate_value(power_gate(fam, lo, fam.pow.len() as int), v, chals);
        assert(x.tables[13 + k] == fam_ind(p, k));
        assert(v[13 + k] == cell(f, fam_ind(p, k), log, j));
        reveal_with_fuel(gate_value, 3);
        assert(gate_value(gs[k], v, chals) == v[13 + k] * (v[0] - pw));
    }
    lemma_joined(7, gs, e, 0, v, chals);
}

} // verus!
