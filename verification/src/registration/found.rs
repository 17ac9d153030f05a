//! What the equalities of the rules say of any vectors: where each row and each entry
//! comes from.
use vstd::prelude::*;
use vstd::arithmetic::power2::*;
use crate::field::{cong, lemma_cong_ops, lemma_modulus, lemma_residue_small, modulus};
use crate::interpolation::lemma_sum_cong;
use crate::sparse::{lemma_table_size, one_if, size_limit};
use crate::sumcheck::{lemma_log2_ceil, log2_ceil};
use crate::sums::lemma_sum_zero;
use super::certificate::column_of;
use super::equal_laws::lemma_lins_of;
use super::family::NUM_FAMILIES;
use super::relation::{
    BlockView, EqualityView, Tab, eq_counters, eq_entries, eq_family, eq_lookup_entries, eq_lookups,
    eq_prefix_entries, eq_ranges, eq_rows, equalities_of, fam_ind, fam_lo, ind, lin_of,
    plain_counters, range_block, seg_hi, seg_ind, seg_lo, shifted_counters,
};
use super::row_counts::lemma_sum_bits;
use super::tallies::{block_sum, blocks_sum, cells_at, lemma_lins, num_at, parts_at};
use super::witness::{
    CTR_AUX, CTR_CR, CTR_LR, CTR_OUT, NUM_COUNTERS, ProfileView, lemma_cumulated, profile_fits,
};

verus! {

/// Lists of equal field elements.
pub open spec fn same_parts(a: Seq<int>, b: Seq<int>) -> bool {
    &&& a.len() == b.len()
    &&& forall|i: int| 0 <= i < a.len() ==> cong(#[trigger] a[i], b[i])
}

/// One for the lists that are equal to a given one.
pub open spec fn equal_to(key: Seq<int>) -> spec_fn(Seq<int>) -> int {
    |v: Seq<int>| one_if(same_parts(v, key))
}

/// The weight of a list on a side of an equality.
pub open spec fn weight_in(
    f: spec_fn(Tab) -> Seq<int>,
    bs: Seq<BlockView>,
    key: Seq<int>,
) -> int {
    blocks_sum(f, bs, equal_to(key), bs.len() as int)
}

/// The two sides of an equality hold each list with the same weight.
pub open spec fn balances(f: spec_fn(Tab) -> Seq<int>, x: EqualityView) -> bool {
    forall|key: Seq<int>|
        cong(#[trigger] weight_in(f, x.left, key), weight_in(f, x.right, key))
}

/// All the equalities of a profile hold.
pub open spec fn all_balance(f: spec_fn(Tab) -> Seq<int>, p: ProfileView) -> bool {
    forall|k: int|
        0 <= k < equalities_of(p).len() ==> balances(f, #[trigger] equalities_of(p)[k])
}

/// A list is on a side with a numerator that is not zero.
pub open spec fn offered_at(
    f: spec_fn(Tab) -> Seq<int>,
    bs: Seq<BlockView>,
    key: Seq<int>,
    b: int,
    y: int,
) -> bool {
    &&& 0 <= b < bs.len()
    &&& 0 <= y < pow2(bs[b].log_len as nat)
    &&& !cong(num_at(f, bs[b], y), 0)
    &&& same_parts(parts_at(f, bs[b], y), key)
}

/// The numerators of a block are zeros and ones.
pub open spec fn bits(f: spec_fn(Tab) -> Seq<int>, b: BlockView) -> bool {
    forall|x: int| 0 <= x < pow2(b.log_len as nat) ==> 0 <= #[trigger] num_at(f, b, x) <= 1
}

proof fn lemma_block_bits(f: spec_fn(Tab) -> Seq<int>, b: BlockView, key: Seq<int>)
    requires
        bits(f, b),
    ensures
        0 <= block_sum(f, b, equal_to(key)) <= pow2(b.log_len as nat),
        forall|x: int|
            0 <= x < pow2(b.log_len as nat) && #[trigger] num_at(f, b, x) == 1 && same_parts(
                parts_at(f, b, x),
                key,
            ) ==> block_sum(f, b, equal_to(key)) >= 1,
{
    let h = equal_to(key);
    let d = |x: int| num_at(f, b, x) * h(parts_at(f, b, x));
    let n = pow2(b.log_len as nat) as int;
    lemma_pow2_pos(b.log_len as nat);
    assert forall|x: int| 0 <= x < n implies 0 <= #[trigger] d(x) <= 1 by {
        let a = num_at(f, b, x);
        assert(0 <= a <= 1);
        assert(a * 0 == 0 && a * 1 == a);
    }
    lemma_sum_bits(n, d);
    assert forall|x: int|
        0 <= x < n && #[trigger] num_at(f, b, x) == 1 && same_parts(
            parts_at(f, b, x),
            key,
        ) implies block_sum(f, b, h) >= 1 by {
        assert(d(x) == 1);
    }
}

proof fn lemma_blocks_bits(
    f: spec_fn(Tab) -> Seq<int>,
    bs: Seq<BlockView>,
    key: Seq<int>,
    n: int,
)
    requires
        0 <= n <= bs.len(),
        forall|k: int| 0 <= k < bs.len() ==> bits(f, #[trigger] bs[k]),
        forall|k: int|
            0 <= k < bs.len() ==> pow2((#[trigger] bs[k]).log_len as nat) <= 2 * size_limit(),
    ensures
        0 <= blocks_sum(f, bs, equal_to(key), n) <= n * (2 * size_limit()),
        forall|k: int, x: int|
            0 <= k < n && 0 <= x < pow2(bs[k].log_len as nat) && #[trigger] num_at(f, bs[k], x) == 1
                && same_parts(parts_at(f, bs[k], x), key) ==> blocks_sum(f, bs, equal_to(key), n)
                >= 1,
    decreases n,
{
    if n > 0 {
        lemma_blocks_bits(f, bs, key, n - 1);
        assert(bits(f, bs[n - 1]));
        lemma_block_bits(f, bs[n - 1], key);
        let l = 2 * size_limit();
        assert(n * l == (n - 1) * l + l) by (nonlinear_arith);
    }
}

proof fn lemma_not_offered(
    f: spec_fn(Tab) -> Seq<int>,
    bs: Seq<BlockView>,
    key: Seq<int>,
    n: int,
)
    requires
        0 <= n <= bs.len(),
        forall|b: int, y: int| !#[trigger] offered_at(f, bs, key, b, y),
    ensures
        cong(blocks_sum(f, bs, equal_to(key), n), 0),
    decreases n,
{
    if n > 0 {
        lemma_not_offered(f, bs, key, n - 1);
        let b = bs[n - 1];
        let h = equal_to(key);
        let d = |x: int| num_at(f, b, x) * h(parts_at(f, b, x));
        let z = |x: int| 0int;
        let len = pow2(b.log_len as nat) as int;
        assert forall|x: int| 0 <= x < len implies cong(#[trigger] d(x), z(x)) by {
            assert(!offered_at(f, bs, key, n - 1, x));
            let a = num_at(f, b, x);
            assert(a * 0 == 0 && a * 1 == a);
        }
        lemma_pow2_pos(b.log_len as nat);
        lemma_sum_cong(len, d, z);
        lemma_sum_zero(len, z);
        lemma_cong_ops(
            blocks_sum(f, bs, h, n - 1),
            0,
            block_sum(f, b, h),
            0,
        );
    }
}

/// What is on the left of an equality that balances is offered on its right.
pub proof fn lemma_found(
    f: spec_fn(Tab) -> Seq<int>,
    e: EqualityView,
    k: int,
    t: int,
) -> (at: (int, int))
    requires
        balances(f, e),
        0 <= k < e.left.len() <= 100,
        0 <= t < pow2(e.left[k].log_len as nat),
        num_at(f, e.left[k], t) == 1,
        forall|i: int| 0 <= i < e.left.len() ==> bits(f, #[trigger] e.left[i]),
        forall|i: int|
            0 <= i < e.left.len() ==> pow2((#[trigger] e.left[i]).log_len as nat) <= 2
                * size_limit(),
    ensures
        offered_at(f, e.right, parts_at(f, e.left[k], t), at.0, at.1),
{
    let key = parts_at(f, e.left[k], t);
    let n = e.left.len() as int;
    if forall|b: int, y: int| !#[trigger] offered_at(f, e.right, key, b, y) {
        lemma_not_offered(f, e.right, key, e.right.len() as int);
        lemma_blocks_bits(f, e.left, key, n);
        let w = weight_in(f, e.left, key);
        assert(same_parts(key, key));
        assert(w >= 1);
        assert(n * (2 * size_limit()) <= 100 * (2 * size_limit())) by (nonlinear_arith)
            requires
                n <= 100,
                0 <= size_limit(),
        ;
        lemma_modulus();
        lemma_residue_small(w);
        lemma_residue_small(0);
        assert(cong(w, weight_in(f, e.right, key)));
        assert(false);
    }
    choose|b: int, y: int| #[trigger] offered_at(f, e.right, key, b, y)
}

/// The value of a vector at a place, among as many places as `log` says.
pub open spec fn cell(f: spec_fn(Tab) -> Seq<int>, t: Tab, log: nat, x: int) -> int {
    column_of(f, t, pow2(log) as int)[x]
}

/// Small numbers that are equal in the field are equal.
proof fn lemma_small(a: int, b: int)
    requires
        0 <= a < modulus(),
        0 <= b < modulus(),
        cong(a, b),
    ensures
        a == b,
{
    lemma_residue_small(a);
    lemma_residue_small(b);
}

proof fn lemma_line(n: int)
    requires
        0 <= n <= size_limit(),
    ensures
        n <= pow2(log2_ceil(n)) <= 2 * size_limit(),
        0 < pow2(log2_ceil(n)),
        2 * size_limit() < modulus(),
{
    lemma_log2_ceil(n);
    lemma_table_size(n);
    lemma_pow2_pos(log2_ceil(n));
    lemma_modulus();
}

/// The counters of an instruction and what it adds to them are the counters of the next, and
/// so are its starts in the families with the numbers of its entries there.
pub proof fn law_counters_advance(f: spec_fn(Tab) -> Seq<int>, p: ProfileView, i: int)
    requires
        profile_fits(p),
        all_balance(f, p),
        0 <= i < p.instr_count,
    ensures
        ({
            let log = log2_ceil(p.instr_count + 1);
            &&& forall|k: usize|
                k < NUM_COUNTERS ==> cong(
                    #[trigger] cell(f, Tab::Ctr(k), log, i + 1),
                    cell(f, Tab::Ctr(k), log, i) + cell(f, Tab::DCtr(k), log, i),
                )
            &&& forall|k: usize|
                k < NUM_FAMILIES ==> cong(
                    #[trigger] cell(f, Tab::Base(k), log, i + 1),
                    cell(f, Tab::Base(k), log, i) + cell(f, Tab::Mult(k), log, i),
                )
        }),
{
    reveal(equalities_of);
    let log = log2_ceil(p.instr_count + 1);
    let e = eq_counters(p);
    assert(equalities_of(p)[0] == e);
    let len = pow2(log) as int;
    lemma_line(p.instr_count + 1);
    let l = e.left[0];
    let r = e.right[0];
    assert forall|x: int| 0 <= x < len implies 0 <= #[trigger] num_at(f, l, x) <= 1 && (x < len - 1
        ==> num_at(f, l, x) == 1) by {
        lemma_lins(cells_at(f, len, x));
    }
    assert(bits(f, l));
    let at = lemma_found(f, e, 0, i);
    let y = at.1;
    assert(at.0 == 0);
    let a = parts_at(f, l, i);
    let b = parts_at(f, r, y);
    assert(same_parts(b, a));
    lemma_lins(cells_at(f, len, i));
    lemma_lins(cells_at(f, len, y));
    assert(a.len() == 1 + NUM_COUNTERS + NUM_FAMILIES);
    assert(cong(b[0], a[0]));
    assert(shifted_counters()[0] == super::relation::lin_shift(lin_of(Tab::Identity), 1));
    assert(a[0] == i + 1);
    assert(b[0] == y);
    lemma_small(y, i + 1);
    assert forall|k: usize| k < NUM_COUNTERS implies cong(
        #[trigger] cell(f, Tab::Ctr(k), log, i + 1),
        cell(f, Tab::Ctr(k), log, i) + cell(f, Tab::DCtr(k), log, i),
    ) by {
        let m = 1 + k as int;
        assert(cong(b[m], a[m]));
        assert(plain_counters()[m] == lin_of(Tab::Ctr(k)));
        assert(shifted_counters()[m] == super::relation::lin_plus(
            lin_of(Tab::Ctr(k)),
            1,
            Tab::DCtr(k),
        ));
    }
    assert forall|k: usize| k < NUM_FAMILIES implies cong(
        #[trigger] cell(f, Tab::Base(k), log, i + 1),
        cell(f, Tab::Base(k), log, i) + cell(f, Tab::Mult(k), log, i),
    ) by {
        let m = 1 + NUM_COUNTERS as int + k as int;
        assert(cong(b[m], a[m]));
        assert(plain_counters()[m] == lin_of(Tab::Base(k)));
        assert(shifted_counters()[m] == super::relation::lin_plus(
            lin_of(Tab::Base(k)),
            1,
            Tab::Mult(k),
        ));
    }
}

/// A constraint row carries the counters of an instruction that has constraint rows.
pub open spec fn row_from(f: spec_fn(Tab) -> Seq<int>, p: ProfileView, t: int, i: int) -> bool {
    let rows = log2_ceil(p.cons_line);
    let log = log2_ceil(p.instr_count + 1);
    &&& 0 <= i < pow2(log)
    &&& !cong(cell(f, Tab::DCtr(CTR_CR), log, i), 0)
    &&& cong(cell(f, Tab::RowPtr, rows, t), i)
    &&& cong(cell(f, Tab::RowCr, rows, t), cell(f, Tab::Ctr(CTR_CR), log, i))
    &&& cong(cell(f, Tab::RowOut, rows, t), cell(f, Tab::Ctr(CTR_OUT), log, i))
    &&& cong(cell(f, Tab::RowDcr, rows, t), cell(f, Tab::DCtr(CTR_CR), log, i))
    &&& cong(
        cell(f, Tab::IsLin, rows, t),
        cell(f, Tab::Sel(3), log, i) + cell(f, Tab::Sel(4), log, i),
    )
}

/// The values of an indicator.
proof fn lemma_ind(f: spec_fn(Tab) -> Seq<int>, lo: int, hi: int, len: int)
    requires
        0 <= lo <= usize::MAX,
        0 <= hi <= usize::MAX,
        0 <= len,
    ensures
        forall|x: int|
            0 <= x < len ==> #[trigger] column_of(f, ind(lo, hi), len)[x] == if lo <= x < hi {
                1int
            } else {
                0
            },
{
}

/// Each constraint row is a row of one of the instructions, and carries its counters.
pub proof fn law_row_found(f: spec_fn(Tab) -> Seq<int>, p: ProfileView, t: int)
    requires
        profile_fits(p),
        all_balance(f, p),
        0 <= t < p.cons_line,
    ensures
        exists|i: int| row_from(f, p, t, i),
{
    reveal(equalities_of);
    let e = eq_rows(p);
    assert(equalities_of(p)[1] == e);
    let rows = log2_ceil(p.cons_line);
    let log = log2_ceil(p.instr_count + 1);
    let len = pow2(rows) as int;
    let top = pow2(log) as int;
    lemma_line(p.cons_line);
    let l = e.left[0];
    let r = e.right[0];
    lemma_ind(f, 0, p.cons_line, len);
    assert forall|x: int| 0 <= x < len implies 0 <= #[trigger] num_at(f, l, x) <= 1 by {
        lemma_lins(cells_at(f, len, x));
    }
    assert(bits(f, l));
    lemma_lins(cells_at(f, len, t));
    let at = lemma_found(f, e, 0, t);
    let i = at.1;
    assert(at.0 == 0);
    lemma_lins(cells_at(f, top, i));
    let a = parts_at(f, l, t);
    let b = parts_at(f, r, i);
    assert(a.len() == 5);
    assert(cong(b[0], a[0]) && cong(b[1], a[1]) && cong(b[2], a[2]));
    assert(cong(b[3], a[3]) && cong(b[4], a[4]));
    let tabs = seq![Tab::RowPtr, Tab::RowCr, Tab::RowOut, Tab::RowDcr, Tab::IsLin];
    lemma_lins_of(f, l, t, tabs);
    assert(a[0] == cell(f, tabs[0], rows, t));
    assert(a[1] == cell(f, tabs[1], rows, t));
    assert(a[2] == cell(f, tabs[2], rows, t));
    assert(a[3] == cell(f, tabs[3], rows, t));
    assert(a[4] == cell(f, tabs[4], rows, t));
    assert(r.comps[0] == lin_of(Tab::Identity));
    assert(r.comps[1] == lin_of(Tab::Ctr(CTR_CR)));
    assert(r.comps[2] == lin_of(Tab::Ctr(CTR_OUT)));
    assert(r.comps[3] == lin_of(Tab::DCtr(CTR_CR)));
    assert(b[0] == i);
    assert(row_from(f, p, t, i));
}

/// A lookup row is that of a lookup, which reads its input, or one of the two of a division.
pub open spec fn lookup_from(f: spec_fn(Tab) -> Seq<int>, p: ProfileView, t: int, i: int) -> bool {
    let rows = log2_ceil(p.lu_line);
    let log = log2_ceil(p.instr_count + 1);
    &&& 0 <= i < pow2(log)
    &&& cong(cell(f, Tab::LuOut, rows, t), cell(f, Tab::Ctr(CTR_OUT), log, i))
    &&& {
        ||| {
            &&& !cong(cell(f, Tab::Sel(1), log, i) + cell(f, Tab::Sel(2), log, i), 0)
            &&& cong(t, cell(f, Tab::Ctr(CTR_LR), log, i))
            &&& cong(cell(f, Tab::IsLookup, rows, t), cell(f, Tab::Sel(1), log, i))
        }
        ||| {
            &&& !cong(cell(f, Tab::Sel(2), log, i), 0)
            &&& cong(t, cell(f, Tab::Ctr(CTR_LR), log, i) + 1)
            &&& cong(cell(f, Tab::IsLookup, rows, t), 0)
        }
    }
}

/// Each lookup row is at the counter of a lookup or of a division, or just behind that of a
/// division, carries the output counter, and is marked for a lookup alone.
pub proof fn law_lookup_found(f: spec_fn(Tab) -> Seq<int>, p: ProfileView, t: int)
    requires
        profile_fits(p),
        all_balance(f, p),
        0 <= t < p.lu_line,
    ensures
        exists|i: int| lookup_from(f, p, t, i),
{
    reveal(equalities_of);
    let e = eq_lookups(p);
    assert(equalities_of(p)[2] == e);
    let rows = log2_ceil(p.lu_line);
    let log = log2_ceil(p.instr_count + 1);
    let len = pow2(rows) as int;
    let top = pow2(log) as int;
    lemma_line(p.lu_line);
    let l = e.left[0];
    lemma_ind(f, 0, p.lu_line, len);
    assert forall|x: int| 0 <= x < len implies 0 <= #[trigger] num_at(f, l, x) <= 1 by {
        lemma_lins(cells_at(f, len, x));
    }
    assert(bits(f, l));
    lemma_lins(cells_at(f, len, t));
    let at = lemma_found(f, e, 0, t);
    let i = at.1;
    let r = e.right[at.0];
    lemma_lins(cells_at(f, top, i));
    let a = parts_at(f, l, t);
    let b = parts_at(f, r, i);
    assert(a.len() == 3);
    assert(cong(b[0], a[0]) && cong(b[1], a[1]) && cong(b[2], a[2]));
    let tabs = seq![Tab::Identity, Tab::LuOut, Tab::IsLookup];
    lemma_lins_of(f, l, t, tabs);
    assert(a[0] == cell(f, tabs[0], rows, t));
    assert(a[1] == cell(f, tabs[1], rows, t));
    assert(a[2] == cell(f, tabs[2], rows, t));
    assert(a[0] == t);
    if at.0 == 0 {
        let more = seq![Tab::Ctr(CTR_LR), Tab::Ctr(CTR_OUT), Tab::Sel(1)];
        lemma_lins_of(f, r, i, more);
        assert(b[0] == cell(f, more[0], log, i));
        assert(b[1] == cell(f, more[1], log, i));
        assert(b[2] == cell(f, more[2], log, i));
    } else {
        assert(at.0 == 1);
    }
    assert(lookup_from(f, p, t, i));
}

/// An entry is in a constraint row, and carries what that row may read and whether it is one
/// of a matrix product or a convolution.
pub open spec fn entry_from(f: spec_fn(Tab) -> Seq<int>, p: ProfileView, t: int, y: int) -> bool {
    let log = log2_ceil(p.entry_len);
    let rows = log2_ceil(p.cons_line);
    &&& 0 <= y < pow2(rows)
    &&& cong(cell(f, Tab::Row, log, t), y)
    &&& cong(cell(f, Tab::MaxRead, log, t), cell(f, Tab::RowOut, rows, y))
    &&& cong(cell(f, Tab::EntLin, log, t), cell(f, Tab::IsLin, rows, y))
}

proof fn lemma_segments(f: spec_fn(Tab) -> Seq<int>, p: ProfileView, m: int, len: int)
    requires
        profile_fits(p),
        0 <= m < 5,
        0 <= len,
    ensures
        0 <= seg_lo(p, m) <= seg_hi(p, m) <= size_limit(),
        m > 0 ==> seg_hi(p, m - 1) == seg_lo(p, m),
        forall|x: int|
            0 <= x < len ==> #[trigger] column_of(f, seg_ind(p, m), len)[x] == if seg_lo(p, m) <= x
                < seg_hi(p, m) {
                1int
            } else {
                0
            },
{
    lemma_cumulated(p.matrix_lens, 0, m);
    lemma_cumulated(p.matrix_lens, m, m + 1);
    lemma_cumulated(p.matrix_lens, m + 1, 5);
    lemma_ind(f, seg_lo(p, m), seg_hi(p, m), len);
}

/// Each entry of the constraint matrices fetches the bound and the mark of its row.
pub proof fn law_entry_found(f: spec_fn(Tab) -> Seq<int>, p: ProfileView, t: int)
    requires
        profile_fits(p),
        all_balance(f, p),
        0 <= t < seg_hi(p, 2),
        seg_hi(p, 2) <= p.entry_len,
    ensures
        exists|y: int| entry_from(f, p, t, y),
{
    reveal(equalities_of);
    let e = eq_entries(p);
    assert(equalities_of(p)[3] == e);
    let log = log2_ceil(p.entry_len);
    let rows = log2_ceil(p.cons_line);
    let len = pow2(log) as int;
    let top = pow2(rows) as int;
    lemma_line(p.entry_len);
    lemma_segments(f, p, 0, len);
    lemma_segments(f, p, 1, len);
    lemma_segments(f, p, 2, len);
    assert(seg_lo(p, 0) == 0);
    let l = e.left[0];
    let r = e.right[0];
    assert forall|x: int| 0 <= x < len implies 0 <= #[trigger] num_at(f, l, x) <= 1 && (x < seg_hi(
        p,
        2,
    ) ==> num_at(f, l, x) == 1) by {
        lemma_lins(cells_at(f, len, x));
        assert(0 <= column_of(f, seg_ind(p, 0), len)[x] <= 1);
        assert(0 <= column_of(f, seg_ind(p, 1), len)[x] <= 1);
        assert(0 <= column_of(f, seg_ind(p, 2), len)[x] <= 1);
    }
    assert(bits(f, l));
    assert(num_at(f, l, t) == 1);
    let at = lemma_found(f, e, 0, t);
    let y = at.1;
    assert(at.0 == 0);
    let a = parts_at(f, l, t);
    let b = parts_at(f, r, y);
    let tabs = seq![Tab::Row, Tab::MaxRead, Tab::EntLin];
    lemma_lins_of(f, l, t, tabs);
    assert(cong(b[0], a[0]) && cong(b[1], a[1]) && cong(b[2], a[2]));
    assert(a[0] == cell(f, tabs[0], log, t));
    assert(a[1] == cell(f, tabs[1], log, t));
    assert(a[2] == cell(f, tabs[2], log, t));
    let more = seq![Tab::Identity, Tab::RowOut, Tab::IsLin];
    lemma_lins_of(f, r, y, more);
    assert(b[0] == cell(f, more[0], rows, y));
    assert(b[1] == cell(f, more[1], rows, y));
    assert(b[2] == cell(f, more[2], rows, y));
    assert(entry_from(f, p, t, y));
}

/// Each entry of the inputs of the lookups fetches the bound of its lookup row.
pub proof fn law_lookup_entry_found(f: spec_fn(Tab) -> Seq<int>, p: ProfileView, t: int) -> (y: int)
    requires
        profile_fits(p),
        all_balance(f, p),
        seg_lo(p, 3) <= t < seg_hi(p, 3),
        seg_hi(p, 3) <= p.entry_len,
    ensures
        0 <= y < pow2(log2_ceil(p.lu_line)),
        !cong(cell(f, Tab::CntL, log2_ceil(p.lu_line), y), 0),
        cong(cell(f, Tab::Row, log2_ceil(p.entry_len), t), p.row_flag + y),
        cong(
            cell(f, Tab::MaxRead, log2_ceil(p.entry_len), t),
            cell(f, Tab::LuOut, log2_ceil(p.lu_line), y),
        ),
{
    reveal(equalities_of);
    let e = eq_lookup_entries(p);
    assert(equalities_of(p)[4] == e);
    let log = log2_ceil(p.entry_len);
    let rows = log2_ceil(p.lu_line);
    let len = pow2(log) as int;
    let top = pow2(rows) as int;
    lemma_line(p.entry_len);
    lemma_segments(f, p, 3, len);
    let l = e.left[0];
    let r = e.right[0];
    assert forall|x: int| 0 <= x < len implies 0 <= #[trigger] num_at(f, l, x) <= 1 by {
        lemma_lins(cells_at(f, len, x));
    }
    assert(bits(f, l));
    lemma_lins(cells_at(f, len, t));
    let at = lemma_found(f, e, 0, t);
    let y = at.1;
    assert(at.0 == 0);
    lemma_lins(cells_at(f, top, y));
    let a = parts_at(f, l, t);
    let b = parts_at(f, r, y);
    assert(a.len() == 2);
    assert(cong(b[0], a[0]) && cong(b[1], a[1]));
    assert(a[0] == cell(f, Tab::Row, log, t) - p.row_flag);
    let more = seq![Tab::Identity, Tab::LuOut];
    lemma_lins_of(f, r, y, more);
    assert(b[0] == cell(f, more[0], rows, y));
    assert(b[1] == cell(f, more[1], rows, y));
    lemma_cong_ops(b[0], a[0], p.row_flag, p.row_flag);
    y
}

/// Each entry on the parameters fetches the mark of its row.
pub proof fn law_prefix_entry_found(f: spec_fn(Tab) -> Seq<int>, p: ProfileView, t: int) -> (y: int)
    requires
        profile_fits(p),
        all_balance(f, p),
        0 <= t < p.b_pre_len,
    ensures
        0 <= y < pow2(log2_ceil(p.cons_line)),
        cong(cell(f, Tab::BRow, log2_ceil(p.b_pre_len), t), y),
        cong(
            cell(f, Tab::BEntLin, log2_ceil(p.b_pre_len), t),
            cell(f, Tab::IsLin, log2_ceil(p.cons_line), y),
        ),
{
    reveal(equalities_of);
    let e = eq_prefix_entries(p);
    assert(equalities_of(p)[5] == e);
    let log = log2_ceil(p.b_pre_len);
    let rows = log2_ceil(p.cons_line);
    let len = pow2(log) as int;
    lemma_line(p.b_pre_len);
    lemma_ind(f, 0, p.b_pre_len, len);
    let l = e.left[0];
    let r = e.right[0];
    assert forall|x: int| 0 <= x < len implies 0 <= #[trigger] num_at(f, l, x) <= 1 by {
        lemma_lins(cells_at(f, len, x));
    }
    assert(bits(f, l));
    lemma_lins(cells_at(f, len, t));
    let at = lemma_found(f, e, 0, t);
    let y = at.1;
    assert(at.0 == 0);
    let a = parts_at(f, l, t);
    let b = parts_at(f, r, y);
    let tabs = seq![Tab::BRow, Tab::BEntLin];
    lemma_lins_of(f, l, t, tabs);
    assert(cong(b[0], a[0]) && cong(b[1], a[1]));
    assert(a[0] == cell(f, tabs[0], log, t));
    assert(a[1] == cell(f, tabs[1], log, t));
    let more = seq![Tab::Identity, Tab::IsLin];
    lemma_lins_of(f, r, y, more);
    assert(b[0] == cell(f, more[0], rows, y));
    assert(b[1] == cell(f, more[1], rows, y));
    y
}

/// The vectors that are held to a range, each with its number of places.
pub open spec fn ranged(p: ProfileView) -> Seq<(Tab, nat)> {
    let x = log2_ceil(p.x_len);
    seq![
        (Tab::Diff, log2_ceil(p.entry_len)),
        (Tab::DiffPre, log2_ceil(p.b_pre_len)),
        (Tab::RowSlackLo, log2_ceil(p.cons_line)),
        (Tab::RowSlackHi, log2_ceil(p.cons_line)),
        (Tab::XDigit(0), x),
        (Tab::XDigitSlack(0), x),
        (Tab::XDigit(1), x),
        (Tab::XDigitSlack(1), x),
        (Tab::XDigit(2), x),
        (Tab::XDigitSlack(2), x),
        (Tab::XDigit(3), x),
        (Tab::XDigitSlack(3), x),
    ]
}

/// The slacks and the coordinates are numbers of the range.
pub proof fn law_in_range(f: spec_fn(Tab) -> Seq<int>, p: ProfileView, k: int, t: int) -> (y: int)
    requires
        profile_fits(p),
        all_balance(f, p),
        0 <= k < 12,
        0 <= t < pow2(ranged(p)[k].1),
    ensures
        0 <= y < pow2(p.log_range as nat),
        cong(cell(f, ranged(p)[k].0, ranged(p)[k].1, t), y),
{
    reveal(equalities_of);
    let e = eq_ranges(p);
    assert(equalities_of(p)[6] == e);
    lemma_line(p.entry_len);
    lemma_line(p.b_pre_len);
    lemma_line(p.cons_line);
    lemma_line(p.x_len);
    assert(e.left.len() == 12);
    assert forall|i: int| 0 <= i < 12 implies #[trigger] e.left[i] == range_block(
        ranged(p)[i].1 as int,
        ranged(p)[i].0,
    ) && pow2(ranged(p)[i].1) <= 2 * size_limit() by {
        assert(i == 0 || i == 1 || i == 2 || i == 3 || i == 4 || i == 5 || i == 6 || i == 7 || i
            == 8 || i == 9 || i == 10 || i == 11);
    }
    assert forall|i: int| 0 <= i < 12 implies bits(f, #[trigger] e.left[i]) by {
        let b = e.left[i];
        assert forall|x: int| 0 <= x < pow2(b.log_len as nat) implies 0 <= #[trigger] num_at(
            f,
            b,
            x,
        ) <= 1 by {
            lemma_lins(cells_at(f, pow2(b.log_len as nat) as int, x));
        }
    }
    let l = e.left[k];
    let len = pow2(ranged(p)[k].1) as int;
    assert(l.log_len as nat == ranged(p)[k].1);
    lemma_lins(cells_at(f, len, t));
    let at = lemma_found(f, e, k, t);
    let y = at.1;
    assert(at.0 == 0);
    let a = parts_at(f, l, t);
    let b = parts_at(f, e.right[0], y);
    assert(a.len() == 1);
    assert(cong(b[0], a[0]));
    let more = seq![Tab::Identity];
    lemma_lins_of(f, e.right[0], y, more);
    assert(b[0] == column_of(f, more[0], pow2(p.log_range as nat) as int)[y]);
    y
}

/// An entry of a family carries the place, the start, the counters and the operands of an
/// instruction.
pub open spec fn family_from(
    f: spec_fn(Tab) -> Seq<int>,
    p: ProfileView,
    k: usize,
    t: int,
    i: int,
) -> bool {
    let x = log2_ceil(p.x_len);
    let log = log2_ceil(p.instr_count + 1);
    &&& 0 <= i < pow2(log)
    &&& !cong(cell(f, Tab::Mult(k), log, i), 0)
    &&& cong(cell(f, Tab::XPtr, x, t), i)
    &&& cong(cell(f, Tab::XBase, x, t), cell(f, Tab::Base(k), log, i))
    &&& cong(cell(f, Tab::XCr, x, t), cell(f, Tab::Ctr(CTR_CR), log, i))
    &&& cong(cell(f, Tab::XOut, x, t), cell(f, Tab::Ctr(CTR_OUT), log, i))
    &&& cong(cell(f, Tab::XAux, x, t), cell(f, Tab::Ctr(CTR_AUX), log, i))
    &&& cong(cell(f, Tab::XOp(0), x, t), cell(f, Tab::Opn(0), log, i))
    &&& cong(cell(f, Tab::XOp(1), x, t), cell(f, Tab::Opn(1), log, i))
    &&& cong(cell(f, Tab::XOp(2), x, t), cell(f, Tab::Opn(2), log, i))
    &&& cong(cell(f, Tab::XOp(3), x, t), cell(f, Tab::Opn(3), log, i))
    &&& cong(cell(f, Tab::XOp(4), x, t), cell(f, Tab::Opn(4), log, i))
    &&& cong(cell(f, Tab::XOp(5), x, t), cell(f, Tab::Opn(5), log, i))
}

/// Each entry of a family belongs to an instruction that has entries there, and carries its
/// counters and operands.
pub proof fn law_family_found(f: spec_fn(Tab) -> Seq<int>, p: ProfileView, k: usize, t: int)
    requires
        profile_fits(p),
        all_balance(f, p),
        k < NUM_FAMILIES,
        fam_lo(p, k as int) <= t < fam_lo(p, k + 1),
        fam_lo(p, k + 1) <= p.x_len,
    ensures
        exists|i: int| family_from(f, p, k, t, i),
{
    reveal(equalities_of);
    let e = eq_family(p, k as int);
    assert(equalities_of(p)[10 + k as int] == e);
    let x = log2_ceil(p.x_len);
    let log = log2_ceil(p.instr_count + 1);
    let len = pow2(x) as int;
    let top = pow2(log) as int;
    lemma_line(p.x_len);
    lemma_cumulated(p.family_lens, 0, k as int);
    lemma_cumulated(p.family_lens, k as int, k + 1);
    lemma_cumulated(p.family_lens, k + 1, NUM_FAMILIES as int);
    lemma_ind(f, fam_lo(p, k as int), fam_lo(p, k + 1), len);
    let l = e.left[0];
    let r = e.right[0];
    assert forall|x: int| 0 <= x < len implies 0 <= #[trigger] num_at(f, l, x) <= 1 by {
        lemma_lins(cells_at(f, len, x));
        assert(0 <= column_of(f, fam_ind(p, k as int), len)[x] <= 1);
    }
    assert(bits(f, l));
    lemma_lins(cells_at(f, len, t));
    assert(num_at(f, l, t) == column_of(f, fam_ind(p, k as int), len)[t]);
    let at = lemma_found(f, e, 0, t);
    let i = at.1;
    assert(at.0 == 0);
    lemma_lins(cells_at(f, top, i));
    let a = parts_at(f, l, t);
    let b = parts_at(f, r, i);
    let tabs = seq![
        Tab::XPtr,
        Tab::XBase,
        Tab::XCr,
        Tab::XOut,
        Tab::XAux,
        Tab::XOp(0),
        Tab::XOp(1),
        Tab::XOp(2),
        Tab::XOp(3),
        Tab::XOp(4),
        Tab::XOp(5),
    ];
    let more = seq![
        Tab::Identity,
        Tab::Base(k),
        Tab::Ctr(CTR_CR),
        Tab::Ctr(CTR_OUT),
        Tab::Ctr(CTR_AUX),
        Tab::Opn(0),
        Tab::Opn(1),
        Tab::Opn(2),
        Tab::Opn(3),
        Tab::Opn(4),
        Tab::Opn(5),
    ];
    lemma_lins_of(f, l, t, tabs);
    lemma_lins_of(f, r, i, more);
    assert forall|m: int| 0 <= m < 11 implies cong(
        #[trigger] cell(f, tabs[m], x, t),
        cell(f, more[m], log, i),
    ) by {
        assert(a[m] == cell(f, tabs[m], x, t));
        assert(b[m] == cell(f, more[m], log, i));
        assert(cong(b[m], a[m]));
    }
    assert(cell(f, more[0], log, i) == i);
    assert(cong(cell(f, tabs[0], x, t), cell(f, more[0], log, i)));
    assert(cong(cell(f, tabs[1], x, t), cell(f, more[1], log, i)));
    assert(cong(cell(f, tabs[2], x, t), cell(f, more[2], log, i)));
    assert(cong(cell(f, tabs[3], x, t), cell(f, more[3], log, i)));
    assert(cong(cell(f, tabs[4], x, t), cell(f, more[4], log, i)));
    assert(cong(cell(f, tabs[5], x, t), cell(f, more[5], log, i)));
    assert(cong(cell(f, tabs[6], x, t), cell(f, more[6], log, i)));
    assert(cong(cell(f, tabs[7], x, t), cell(f, more[7], log, i)));
    assert(cong(cell(f, tabs[8], x, t), cell(f, more[8], log, i)));
    assert(cong(cell(f, tabs[9], x, t), cell(f, more[9], log, i)));
    assert(cong(cell(f, tabs[10], x, t), cell(f, more[10], log, i)));
    assert(family_from(f, p, k, t, i));
}

} // verus!
