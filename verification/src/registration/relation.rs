//! The rules that a certificate proves, as a list of checks on vectors.
//!
//! A zero check says that an expression vanishes on all places of some vectors. An
//! equality says that two sums of fractions agree, hence two multisets. The
//! numerators and the parts of the denominators are affine in the vectors.
use vstd::prelude::*;
use crate::circuit::{LookupType, QUOTIENT_BOUND};
use crate::field::{Fr, values};
use crate::registration::encode::{NUM_OPCODES, NUM_OPERANDS};
use crate::registration::family::{
    ColBase, Family, FamilyView, MAX_DIGITS, NUM_FAMILIES, PowTerm, RowSpec, ex_gate, families,
    families_of, family_views, family_wf, lemma_families,
};
use crate::registration::witness::{
    CTR_AUX, CTR_CR, CTR_LR, CTR_OUT, NUM_COUNTERS, ProfileView, RegistrationProfile,
    lemma_cumulated, profile_fits,
};
use crate::sparse::{cumulated, size_limit};
use crate::sumcheck::{Gate, coin, constant, log2_ceil, minus, plus, times, var};
use crate::sums::{lemma_pow2_step, sum_to, two_pow};

verus! {

/// A vector that a check reads.
#[derive(Clone, Copy, PartialEq, Eq, Structural, Debug)]
pub enum Tab {
    Sel(usize),
    Opn(usize),
    Ctr(usize),
    DCtr(usize),
    /// Where the entries of an instruction start in a family.
    Base(usize),
    /// The number of entries of an instruction in a family.
    Mult(usize),
    RowOut,
    RowPtr,
    RowCr,
    RowDcr,
    IsLin,
    RowSlackLo,
    RowSlackHi,
    BCnt,
    EntLin,
    MaskA,
    MaskB,
    MaskC,
    BEntLin,
    MaskPre,
    XPtr,
    XBase,
    XCr,
    XOut,
    XAux,
    XOp(usize),
    XDigit(usize),
    XDigitSlack(usize),
    XPow,
    CntC,
    LuOut,
    IsLookup,
    CntL,
    MaxRead,
    Diff,
    DiffPre,
    RangeCnt,
    Row,
    Col,
    Val,
    Pow,
    BRow,
    BCol,
    BVal,
    BPow,
    Tp,
    /// Ones.
    One,
    /// The index.
    Identity,
    /// Ones from one index up to another, zeros elsewhere.
    Ind(usize, usize),
}

impl Tab {
    /// The vector is committed to; the others are public.
    pub open spec fn committed(self) -> bool {
        !(self is One || self is Identity || self is Ind)
    }

    /// Whether the vector is committed to.
    pub fn is_committed(self) -> (out: bool)
        ensures
            out == self.committed(),
    {
        match self {
            Tab::One => false,
            Tab::Identity => false,
            Tab::Ind(_, _) => false,
            _ => true,
        }
    }
}

/// A constant plus multiples of vectors.
pub ghost struct LinView {
    pub constant: int,
    pub terms: Seq<(int, Tab)>,
}

/// A constant plus multiples of vectors.
#[derive(Clone, Debug)]
pub struct Lin {
    pub constant: i64,
    pub terms: Vec<(i64, Tab)>,
}

impl View for Lin {
    type V = LinView;

    open spec fn view(&self) -> LinView {
        LinView {
            constant: self.constant as int,
            terms: self.terms@.map_values(|t: (i64, Tab)| (t.0 as int, t.1)),
        }
    }
}

/// A constant.
pub open spec fn lin_constant(x: int) -> LinView {
    LinView { constant: x, terms: Seq::empty() }
}

/// A vector.
pub open spec fn lin_of(t: Tab) -> LinView {
    LinView { constant: 0, terms: seq![(1, t)] }
}

/// One more multiple of a vector.
pub open spec fn lin_plus(l: LinView, x: int, t: Tab) -> LinView {
    LinView { terms: l.terms.push((x, t)), ..l }
}

/// A constant more.
pub open spec fn lin_shift(l: LinView, x: int) -> LinView {
    LinView { constant: l.constant + x, ..l }
}

/// The value of an affine expression, for the values of the vectors.
pub open spec fn lin_value(l: LinView, f: spec_fn(Tab) -> int) -> int {
    l.constant + sum_to(l.terms.len() as int, |k: int| l.terms[k].0 * f(l.terms[k].1))
}

/// The first place of a vector in a list, or the length of the list.
pub open spec fn place(tabs: Seq<Tab>, t: Tab, k: int) -> int
    decreases tabs.len() - k,
{
    if k >= tabs.len() {
        tabs.len() as int
    } else if tabs[k] == t {
        k
    } else {
        place(tabs, t, k + 1)
    }
}

/// The place of a vector that is in a list is one where it is.
pub proof fn lemma_place(tabs: Seq<Tab>, t: Tab, k: int)
    requires
        0 <= k,
        exists|i: int| k <= i < tabs.len() && tabs[i] == t,
    ensures
        k <= place(tabs, t, k) < tabs.len(),
        tabs[place(tabs, t, k)] == t,
    decreases tabs.len() - k,
{
    if tabs[k] != t {
        lemma_place(tabs, t, k + 1);
    }
}

/// The vectors of an expression are in a list.
pub open spec fn lin_covered(l: LinView, tabs: Seq<Tab>) -> bool {
    forall|k: int| 0 <= k < l.terms.len() ==> tabs.contains((#[trigger] l.terms[k]).1)
}

fn find(tabs: &Vec<Tab>, t: Tab) -> (out: usize)
    requires
        tabs@.contains(t),
    ensures
        out == place(tabs@, t, 0),
        out < tabs.len(),
{
    proof {
        lemma_place(tabs@, t, 0);
    }
    let mut k: usize = 0;
    while !(tabs[k] == t)
        invariant
            k <= place(tabs@, t, 0) < tabs.len(),
            place(tabs@, t, 0) == place(tabs@, t, k as int),
        decreases tabs.len() - k,
    {
        proof {
            lemma_place_after(tabs@, t, k + 1);
        }
        k = k + 1;
    }
    k
}

proof fn lemma_place_after(tabs: Seq<Tab>, t: Tab, k: int)
    requires
        0 <= k <= tabs.len(),
    ensures
        k <= place(tabs, t, k) <= tabs.len(),
    decreases tabs.len() - k,
{
    if k < tabs.len() && tabs[k] != t {
        lemma_place_after(tabs, t, k + 1);
    }
}

impl Lin {
    /// A constant.
    pub fn constant(value: i64) -> (out: Lin)
        ensures
            out@ == lin_constant(value as int),
    {
        let out = Lin { constant: value, terms: Vec::new() };
        assert(out@.terms =~= Seq::empty());
        out
    }

    /// A vector.
    pub fn of(tab: Tab) -> (out: Lin)
        ensures
            out@ == lin_of(tab),
    {
        let mut terms: Vec<(i64, Tab)> = Vec::new();
        terms.push((1, tab));
        let out = Lin { constant: 0, terms };
        assert(out@.terms =~= seq![(1int, tab)]);
        out
    }

    /// One more multiple of a vector.
    pub fn plus(self, coeff: i64, tab: Tab) -> (out: Lin)
        ensures
            out@ == lin_plus(self@, coeff as int, tab),
    {
        let mut terms = self.terms;
        terms.push((coeff, tab));
        let out = Lin { constant: self.constant, terms };
        assert(out@.terms =~= self@.terms.push((coeff as int, tab)));
        out
    }

    /// A constant more.
    pub fn shift(self, value: i64) -> (out: Lin)
        requires
            i64::MIN <= self@.constant + value <= i64::MAX,
        ensures
            out@ == lin_shift(self@, value as int),
    {
        Lin { constant: self.constant + value, terms: self.terms }
    }

    /// The value of the expression, for a list of vectors and their values.
    pub fn eval(&self, tabs: &Vec<Tab>, vals: &Vec<Fr>) -> (out: Fr)
        requires
            lin_covered(self@, tabs@),
            tabs.len() == vals.len(),
        ensures
            out@ == lin_value(self@, |t: Tab| values(vals@)[place(tabs@, t, 0)]),
    {
        let ghost l = self@;
        let ghost f = |t: Tab| values(vals@)[place(tabs@, t, 0)];
        let mut acc = Fr::zero();
        for k in 0..self.terms.len()
            invariant
                l == self@,
                lin_covered(l, tabs@),
                tabs.len() == vals.len(),
                f == (|t: Tab| values(vals@)[place(tabs@, t, 0)]),
                acc@ == sum_to(k as int, |k: int| l.terms[k].0 * f(l.terms[k].1)),
        {
            assert(tabs@.contains(l.terms[k as int].1));
            let s: usize = find(tabs, self.terms[k].1);
            acc = acc + Fr::from_i64(self.terms[k].0) * vals[s];
        }
        Fr::from_i64(self.constant) + acc
    }
}

/// One sum of fractions.
pub ghost struct BlockView {
    pub log_len: int,
    pub num: LinView,
    pub comps: Seq<LinView>,
}

/// One sum of fractions: the numerator, and the parts of the denominator.
#[derive(Clone, Debug)]
pub struct Block {
    pub log_len: usize,
    pub num: Lin,
    pub comps: Vec<Lin>,
}

/// The views of some expressions.
pub open spec fn lin_views(v: Seq<Lin>) -> Seq<LinView> {
    v.map_values(|l: Lin| l@)
}

impl View for Block {
    type V = BlockView;

    open spec fn view(&self) -> BlockView {
        BlockView {
            log_len: self.log_len as int,
            num: self.num@,
            comps: lin_views(self.comps@),
        }
    }
}

/// The views of some blocks.
pub open spec fn block_views(v: Seq<Block>) -> Seq<BlockView> {
    v.map_values(|b: Block| b@)
}

/// Sums of fractions whose totals agree.
pub ghost struct EqualityView {
    pub name: Seq<char>,
    pub left: Seq<BlockView>,
    pub right: Seq<BlockView>,
}

/// Sums of fractions whose totals agree.
pub struct Equality {
    pub name: &'static str,
    pub left: Vec<Block>,
    pub right: Vec<Block>,
}

impl View for Equality {
    type V = EqualityView;

    open spec fn view(&self) -> EqualityView {
        EqualityView {
            name: self.name@,
            left: block_views(self.left@),
            right: block_views(self.right@),
        }
    }
}

/// An expression that vanishes on all places.
pub ghost struct CheckView {
    pub name: Seq<char>,
    pub log_len: int,
    pub degree: int,
    pub tables: Seq<Tab>,
    pub gate: Gate,
}

/// An expression in some vectors that vanishes on all places. The degree counts one
/// more factor.
pub struct ZeroCheck {
    pub name: &'static str,
    pub log_len: usize,
    pub degree: usize,
    pub tables: Vec<Tab>,
    pub gate: Gate,
}

impl View for ZeroCheck {
    type V = CheckView;

    open spec fn view(&self) -> CheckView {
        CheckView {
            name: self.name@,
            log_len: self.log_len as int,
            degree: self.degree as int,
            tables: self.tables@,
            gate: self.gate,
        }
    }
}

/// All the rules.
pub ghost struct RulesView {
    pub zero_checks: Seq<CheckView>,
    pub equalities: Seq<EqualityView>,
}

/// All the rules.
pub struct Rules {
    pub zero_checks: Vec<ZeroCheck>,
    pub equalities: Vec<Equality>,
}

/// The views of some checks.
pub open spec fn check_views(v: Seq<ZeroCheck>) -> Seq<CheckView> {
    v.map_values(|c: ZeroCheck| c@)
}

/// The views of some equalities.
pub open spec fn equality_views(v: Seq<Equality>) -> Seq<EqualityView> {
    v.map_values(|e: Equality| e@)
}

impl View for Rules {
    type V = RulesView;

    open spec fn view(&self) -> RulesView {
        RulesView {
            zero_checks: check_views(self.zero_checks@),
            equalities: equality_views(self.equalities@),
        }
    }
}

/// The number of challenges that join the expressions of the zero checks.
pub const NUM_CHALLENGES: usize = 8;

/// The place of the first entry of a matrix.
pub open spec fn seg_lo(p: ProfileView, m: int) -> int {
    cumulated(p.matrix_lens, m)
}

/// The place after the last entry of a matrix.
pub open spec fn seg_hi(p: ProfileView, m: int) -> int {
    cumulated(p.matrix_lens, m + 1)
}

/// The indicator of a range of integers.
pub open spec fn ind(lo: int, hi: int) -> Tab {
    Tab::Ind(lo as usize, hi as usize)
}

/// The indicator of the entries of a matrix.
pub open spec fn seg_ind(p: ProfileView, m: int) -> Tab {
    ind(seg_lo(p, m), seg_hi(p, m))
}

/// The indicator of the entries of a family.
pub open spec fn fam_ind(p: ProfileView, f: int) -> Tab {
    ind(cumulated(p.family_lens, f), cumulated(p.family_lens, f + 1))
}

/// The place of the first entry of a family.
pub open spec fn fam_lo(p: ProfileView, f: int) -> int {
    cumulated(p.family_lens, f)
}

pub open spec fn g_num(x: int) -> Gate {
    Gate::Constant(x as i64)
}

pub open spec fn g_var(i: int) -> Gate {
    Gate::Var(i as usize)
}

pub open spec fn g_coin(i: int) -> Gate {
    Gate::Coin(i as usize)
}

pub open spec fn g_add(a: Gate, b: Gate) -> Gate {
    Gate::Add(Box::new(a), Box::new(b))
}

pub open spec fn g_sub(a: Gate, b: Gate) -> Gate {
    Gate::Sub(Box::new(a), Box::new(b))
}

pub open spec fn g_mul(a: Gate, b: Gate) -> Gate {
    Gate::Mul(Box::new(a), Box::new(b))
}

/// The expressions of a list from place `k` on, joined by the powers of a coin.
pub open spec fn joined_gates(x: int, gs: Seq<Gate>, k: int) -> Gate
    decreases gs.len() - k,
{
    if k >= gs.len() {
        g_num(0)
    } else {
        g_mul(g_coin(x), g_add(gs[k], joined_gates(x, gs, k + 1)))
    }
}

fn join(x: usize, gs: Vec<Gate>) -> (out: Gate)
    ensures
        out == joined_gates(x as int, gs@, 0),
{
    let mut rest = gs;
    let ghost all = gs@;
    let mut out = constant(0);
    while rest.len() > 0
        invariant
            rest@ == all.take(rest.len() as int),
            rest.len() <= all.len(),
            out == joined_gates(x as int, all, rest.len() as int),
        decreases rest.len(),
    {
        let ghost n = rest.len() as int;
        let last = rest.pop();
        match last {
            Some(g) => {
                assert(g == all[n - 1]);
                assert(rest@ =~= all.take(n - 1));
                out = times(coin(x), plus(g, out));
            },
            None => {},
        }
    }
    out
}

/// The selectors are zeros and ones, and their sum is one on the instructions.
pub open spec fn selector_gates() -> Seq<Gate> {
    Seq::new(
        NUM_OPCODES as nat,
        |j: int| g_mul(g_var(j), g_sub(g_var(j), g_num(1))),
    ).push(
        g_sub(
            g_add(g_add(g_add(g_add(g_var(0), g_var(1)), g_var(2)), g_var(3)), g_var(4)),
            g_var(5),
        ),
    )
}

pub open spec fn check_selectors(p: ProfileView) -> CheckView {
    CheckView {
        name: "selectors are one-hot"@,
        log_len: log2_ceil(p.instr_count + 1) as int,
        degree: 3,
        tables: seq![
            Tab::Sel(0),
            Tab::Sel(1),
            Tab::Sel(2),
            Tab::Sel(3),
            Tab::Sel(4),
            ind(0, p.instr_count),
        ],
        gate: joined_gates(0, selector_gates(), 0),
    }
}

/// The vectors of the selectors and the operands.
pub open spec fn program_tabs() -> Seq<Tab> {
    seq![
        Tab::Sel(0),
        Tab::Sel(1),
        Tab::Sel(2),
        Tab::Sel(3),
        Tab::Sel(4),
        Tab::Opn(0),
        Tab::Opn(1),
        Tab::Opn(2),
        Tab::Opn(3),
        Tab::Opn(4),
        Tab::Opn(5),
    ]
}

/// What an instruction takes, less what its counters say.
pub open spec fn increment_gate() -> Gate {
    let side = g_sub(g_add(g_var(7), g_var(8)), g_num(1));
    let d_out = g_add(
        g_add(
            g_add(g_add(g_var(0), g_var(1)), g_var(2)),
            g_mul(g_mul(g_var(3), g_var(5)), g_var(7)),
        ),
        g_mul(g_mul(g_mul(g_var(4), g_var(6)), side), side),
    );
    let d_aux = g_add(
        g_add(g_var(2), g_mul(g_var(3), g_var(6))),
        g_mul(g_var(4), g_var(5)),
    );
    let d_cr = g_add(
        g_add(g_add(g_var(0), g_var(2)), g_mul(g_var(3), g_add(g_var(6), g_num(1)))),
        g_mul(g_var(4), g_add(g_var(5), g_num(1))),
    );
    let d_lr = g_add(g_var(1), g_add(g_var(2), g_var(2)));
    g_add(
        g_add(
            g_add(
                g_mul(g_coin(1), g_sub(g_var(11), d_out)),
                g_mul(g_coin(2), g_sub(g_var(12), d_aux)),
            ),
            g_mul(g_coin(3), g_sub(g_var(13), d_cr)),
        ),
        g_mul(g_coin(4), g_sub(g_var(14), d_lr)),
    )
}

pub open spec fn check_increments(p: ProfileView) -> CheckView {
    CheckView {
        name: "counter increments match the opcode"@,
        log_len: log2_ceil(p.instr_count + 1) as int,
        degree: 5,
        tables: program_tabs() + seq![Tab::DCtr(0), Tab::DCtr(1), Tab::DCtr(2), Tab::DCtr(3)],
        gate: increment_gate(),
    }
}

/// The product of the first `n` sides of a grid, with the operands from table
/// `base` on.
pub open spec fn sides_gate(f: FamilyView, base: int, n: int) -> Gate
    decreases n,
{
    if n <= 0 {
        g_num(1)
    } else {
        g_mul(sides_gate(f, base, n - 1), ex_gate(f.radices[n - 1], base))
    }
}

/// The number of entries that an instruction has in a family, less what is said.
pub open spec fn size_gates() -> Seq<Gate> {
    Seq::new(
        NUM_FAMILIES as nat,
        |f: int|
            {
                let fam = families_of()[f];
                g_sub(
                    g_var(11 + f),
                    g_mul(
                        g_var(fam.opcode.number()),
                        sides_gate(fam, NUM_OPCODES as int, fam.radices.len() as int),
                    ),
                )
            },
    )
}

pub open spec fn check_sizes(p: ProfileView) -> CheckView {
    CheckView {
        name: "family sizes match the operands"@,
        log_len: log2_ceil(p.instr_count + 1) as int,
        degree: 6,
        tables: program_tabs() + Seq::new(
            NUM_FAMILIES as nat,
            |f: int| Tab::Mult(f as usize),
        ),
        gate: joined_gates(6, size_gates(), 0),
    }
}

pub open spec fn check_read_slack(p: ProfileView) -> CheckView {
    let plain = g_sub(g_sub(g_add(g_add(g_var(3), g_var(4)), g_var(5)), g_var(6)), g_var(7));
    CheckView {
        name: "read slack is well formed"@,
        log_len: log2_ceil(p.entry_len) as int,
        degree: 3,
        tables: seq![
            Tab::Diff,
            Tab::MaxRead,
            Tab::Col,
            seg_ind(p, 0),
            seg_ind(p, 1),
            seg_ind(p, 3),
            Tab::MaskA,
            Tab::MaskB,
        ],
        gate: g_sub(
            g_var(0),
            g_mul(
                plain,
                g_sub(g_sub(g_sub(g_var(1), g_num(p.weight_len)), g_var(2)), g_num(1)),
            ),
        ),
    }
}

pub open spec fn check_prefix_slack(p: ProfileView) -> CheckView {
    CheckView {
        name: "prefix slack is well formed"@,
        log_len: log2_ceil(p.b_pre_len) as int,
        degree: 3,
        tables: seq![Tab::DiffPre, Tab::BCol, ind(0, p.b_pre_len)],
        gate: g_sub(
            g_var(0),
            g_mul(g_var(2), g_sub(g_sub(g_num(p.weight_len), g_num(1)), g_var(1))),
        ),
    }
}

pub open spec fn check_inputs(p: ProfileView) -> CheckView {
    CheckView {
        name: "only lookup rows read inputs"@,
        log_len: log2_ceil(p.lu_line) as int,
        degree: 3,
        tables: seq![Tab::CntL, Tab::IsLookup],
        gate: g_mul(g_var(0), g_sub(g_num(1), g_var(1))),
    }
}

pub open spec fn check_plain_powers(p: ProfileView) -> CheckView {
    CheckView {
        name: "plain rows carry no powers"@,
        log_len: log2_ceil(p.entry_len) as int,
        degree: 3,
        tables: seq![
            Tab::Pow,
            seg_ind(p, 0),
            seg_ind(p, 1),
            seg_ind(p, 3),
            Tab::MaskA,
            Tab::MaskB,
        ],
        gate: g_mul(
            g_sub(g_sub(g_add(g_add(g_var(1), g_var(2)), g_var(3)), g_var(4)), g_var(5)),
            g_var(0),
        ),
    }
}

pub open spec fn check_prefix_powers(p: ProfileView) -> CheckView {
    CheckView {
        name: "prefix rows carry no powers"@,
        log_len: log2_ceil(p.b_pre_len) as int,
        degree: 3,
        tables: seq![Tab::BPow, ind(0, p.b_pre_len), Tab::MaskPre],
        gate: g_mul(g_sub(g_var(1), g_var(2)), g_var(0)),
    }
}

/// The mask of each matrix, less what it has to be.
pub open spec fn mask_gates() -> Seq<Gate> {
    seq![
        g_sub(g_var(0), g_mul(g_var(4), g_var(3))),
        g_sub(g_var(1), g_mul(g_var(5), g_var(3))),
        g_sub(g_var(2), g_mul(g_var(6), g_var(3))),
    ]
}

pub open spec fn check_masks(p: ProfileView) -> CheckView {
    CheckView {
        name: "segment masks follow the rows"@,
        log_len: log2_ceil(p.entry_len) as int,
        degree: 3,
        tables: seq![
            Tab::MaskA,
            Tab::MaskB,
            Tab::MaskC,
            Tab::EntLin,
            seg_ind(p, 0),
            seg_ind(p, 1),
            seg_ind(p, 2),
        ],
        gate: joined_gates(5, mask_gates(), 0),
    }
}

pub open spec fn check_prefix_mask(p: ProfileView) -> CheckView {
    CheckView {
        name: "prefix mask follows the rows"@,
        log_len: log2_ceil(p.b_pre_len) as int,
        degree: 3,
        tables: seq![Tab::MaskPre, Tab::BEntLin, ind(0, p.b_pre_len)],
        gate: g_sub(g_var(0), g_mul(g_var(2), g_var(1))),
    }
}

/// The distances of a row from the ends of its block, less what they have to be.
pub open spec fn block_gates() -> Seq<Gate> {
    seq![
        g_sub(g_var(0), g_mul(g_var(5), g_sub(g_var(4), g_var(2)))),
        g_sub(
            g_var(1),
            g_mul(
                g_var(5),
                g_sub(g_sub(g_add(g_var(2), g_var(3)), g_num(1)), g_var(4)),
            ),
        ),
    ]
}

pub open spec fn check_blocks(p: ProfileView) -> CheckView {
    CheckView {
        name: "rows sit inside their block"@,
        log_len: log2_ceil(p.cons_line) as int,
        degree: 3,
        tables: seq![
            Tab::RowSlackLo,
            Tab::RowSlackHi,
            Tab::RowCr,
            Tab::RowDcr,
            Tab::Identity,
            ind(0, p.cons_line),
        ],
        gate: joined_gates(5, block_gates(), 0),
    }
}

/// The vectors of the coordinates.
pub open spec fn digit_tabs() -> Seq<Tab> {
    seq![Tab::XDigit(0), Tab::XDigit(1), Tab::XDigit(2), Tab::XDigit(3)]
}

/// The vectors of the operands of the entries of the families, and the indicators
/// of the families.
pub open spec fn family_tabs(p: ProfileView) -> Seq<Tab> {
    seq![Tab::XOp(0), Tab::XOp(1), Tab::XOp(2), Tab::XOp(3), Tab::XOp(4), Tab::XOp(5)] + Seq::new(
        NUM_FAMILIES as nat,
        |f: int| fam_ind(p, f),
    )
}

/// The number that the first `n` coordinates make, with the coordinates from table
/// `digits` and the operands from table `ops` on.
pub open spec fn number_gate(f: FamilyView, digits: int, ops: int, n: int) -> Gate
    decreases n,
{
    if n <= 1 {
        g_var(digits)
    } else {
        g_add(
            g_mul(number_gate(f, digits, ops, n - 1), ex_gate(f.radices[n - 1], ops)),
            g_var(digits + n - 1),
        )
    }
}

/// The sum of the coordinates from `k` on.
pub open spec fn unused_gate(digits: int, k: int) -> Gate
    decreases MAX_DIGITS - k,
{
    if k >= MAX_DIGITS {
        g_num(0)
    } else {
        g_add(g_var(digits + k), unused_gate(digits, k + 1))
    }
}

/// The number of an entry in its grid, with the index at table `at` and the start
/// at table `at + 1`.
pub open spec fn flat_gate(lo: int, at: int) -> Gate {
    g_sub(g_sub(g_var(at), g_num(lo)), g_var(at + 1))
}

/// The number of an entry less what its coordinates make.
pub open spec fn position_gates(p: ProfileView) -> Seq<Gate> {
    Seq::new(
        NUM_FAMILIES as nat,
        |f: int|
            {
                let fam = families_of()[f];
                g_mul(
                    g_var(12 + f),
                    g_add(
                        g_sub(
                            flat_gate(fam_lo(p, f), 0),
                            number_gate(fam, 2, 6, fam.radices.len() as int),
                        ),
                        unused_gate(2, fam.radices.len() as int),
                    ),
                )
            },
    )
}

pub open spec fn check_positions(p: ProfileView) -> CheckView {
    CheckView {
        name: "expansion digits decode the position"@,
        log_len: log2_ceil(p.x_len) as int,
        degree: 6,
        tables: seq![Tab::Identity, Tab::XBase] + digit_tabs() + family_tabs(p),
        gate: joined_gates(7, position_gates(p), 0),
    }
}

/// What is left between a coordinate and the side of the grid.
pub open spec fn left_gate(f: FamilyView, j: int) -> Gate {
    if j < f.radices.len() {
        g_sub(g_sub(ex_gate(f.radices[j], 8), g_num(1)), g_var(4 + j))
    } else {
        g_num(0)
    }
}

/// What is said to be left between a coordinate and the side of the grid, less what
/// is left.
pub open spec fn left_gates() -> Seq<Gate> {
    Seq::new(
        (NUM_FAMILIES * MAX_DIGITS) as nat,
        |t: int|
            {
                let f = t / MAX_DIGITS as int;
                let j = t % MAX_DIGITS as int;
                g_mul(g_var(14 + f), g_sub(g_var(j), left_gate(families_of()[f], j)))
            },
    )
}

pub open spec fn check_sides(p: ProfileView) -> CheckView {
    CheckView {
        name: "expansion digits stay inside their loop"@,
        log_len: log2_ceil(p.x_len) as int,
        degree: 4,
        tables: seq![
            Tab::XDigitSlack(0),
            Tab::XDigitSlack(1),
            Tab::XDigitSlack(2),
            Tab::XDigitSlack(3),
        ] + digit_tabs() + family_tabs(p),
        gate: joined_gates(7, left_gates(), 0),
    }
}

/// The power of an entry by the first `n` terms.
pub open spec fn power_gate(f: FamilyView, lo: int, n: int) -> Gate
    decreases n,
{
    if n <= 0 {
        ex_gate(f.pow_const, 7)
    } else {
        let term = f.pow[n - 1];
        g_add(
            power_gate(f, lo, n - 1),
            g_mul(
                ex_gate(term.0, 7),
                match term.1 {
                    PowTerm::Digit(j) => g_var(3 + j),
                    PowTerm::Flat => flat_gate(lo, 1),
                },
            ),
        )
    }
}

/// The power of an entry, less what it has to be.
pub open spec fn power_gates(p: ProfileView) -> Seq<Gate> {
    Seq::new(
        NUM_FAMILIES as nat,
        |f: int|
            {
                let fam = families_of()[f];
                g_mul(
                    g_var(13 + f),
                    g_sub(g_var(0), power_gate(fam, fam_lo(p, f), fam.pow.len() as int)),
                )
            },
    )
}

pub open spec fn check_powers(p: ProfileView) -> CheckView {
    CheckView {
        name: "expansion powers follow the family"@,
        log_len: log2_ceil(p.x_len) as int,
        degree: 5,
        tables: seq![Tab::XPow, Tab::Identity, Tab::XBase] + digit_tabs() + family_tabs(p),
        gate: joined_gates(7, power_gates(p), 0),
    }
}

/// All the zero checks, in order.
#[verifier::opaque]
pub open spec fn zero_checks_of(p: ProfileView) -> Seq<CheckView> {
    seq![
        check_selectors(p),
        check_increments(p),
        check_sizes(p),
        check_read_slack(p),
        check_prefix_slack(p),
        check_inputs(p),
        check_plain_powers(p),
        check_prefix_powers(p),
        check_masks(p),
        check_prefix_mask(p),
        check_blocks(p),
        check_positions(p),
        check_sides(p),
        check_powers(p),
    ]
}

/// The expression that is one vector, for each of several.
pub open spec fn lins_of(tabs: Seq<Tab>) -> Seq<LinView> {
    tabs.map_values(|t: Tab| lin_of(t))
}

/// The counters before and after each instruction, and the starts in the families.
pub open spec fn plain_counters() -> Seq<LinView> {
    seq![lin_of(Tab::Identity)] + Seq::new(
        NUM_COUNTERS as nat,
        |x: int| lin_of(Tab::Ctr(x as usize)),
    ) + Seq::new(NUM_FAMILIES as nat, |f: int| lin_of(Tab::Base(f as usize)))
}

pub open spec fn shifted_counters() -> Seq<LinView> {
    seq![lin_shift(lin_of(Tab::Identity), 1)] + Seq::new(
        NUM_COUNTERS as nat,
        |x: int| lin_plus(lin_of(Tab::Ctr(x as usize)), 1, Tab::DCtr(x as usize)),
    ) + Seq::new(
        NUM_FAMILIES as nat,
        |f: int| lin_plus(lin_of(Tab::Base(f as usize)), 1, Tab::Mult(f as usize)),
    )
}

pub open spec fn eq_counters(p: ProfileView) -> EqualityView {
    let log = log2_ceil(p.instr_count + 1) as int;
    let top = vstd::arithmetic::power2::pow2(log as nat) - 1;
    EqualityView {
        name: "counters advance"@,
        left: seq![
            BlockView {
                log_len: log,
                num: lin_plus(lin_constant(1), -1, ind(top, top + 1)),
                comps: shifted_counters(),
            },
        ],
        right: seq![
            BlockView {
                log_len: log,
                num: lin_plus(lin_constant(1), -1, ind(0, 1)),
                comps: plain_counters(),
            },
        ],
    }
}

pub open spec fn eq_rows(p: ProfileView) -> EqualityView {
    EqualityView {
        name: "constraint rows belong to their instruction"@,
        left: seq![
            BlockView {
                log_len: log2_ceil(p.cons_line) as int,
                num: lin_of(ind(0, p.cons_line)),
                comps: lins_of(
                    seq![Tab::RowPtr, Tab::RowCr, Tab::RowOut, Tab::RowDcr, Tab::IsLin],
                ),
            },
        ],
        right: seq![
            BlockView {
                log_len: log2_ceil(p.instr_count + 1) as int,
                num: lin_of(Tab::DCtr(CTR_CR)),
                comps: lins_of(
                    seq![Tab::Identity, Tab::Ctr(CTR_CR), Tab::Ctr(CTR_OUT), Tab::DCtr(CTR_CR)],
                ).push(lin_plus(lin_of(Tab::Sel(3)), 1, Tab::Sel(4))),
            },
        ],
    }
}

pub open spec fn eq_lookups(p: ProfileView) -> EqualityView {
    let log = log2_ceil(p.instr_count + 1) as int;
    EqualityView {
        name: "lookup rows carry their bound"@,
        left: seq![
            BlockView {
                log_len: log2_ceil(p.lu_line) as int,
                num: lin_of(ind(0, p.lu_line)),
                comps: lins_of(seq![Tab::Identity, Tab::LuOut, Tab::IsLookup]),
            },
        ],
        right: seq![
            BlockView {
                log_len: log,
                num: lin_plus(lin_of(Tab::Sel(1)), 1, Tab::Sel(2)),
                comps: lins_of(seq![Tab::Ctr(CTR_LR), Tab::Ctr(CTR_OUT), Tab::Sel(1)]),
            },
            BlockView {
                log_len: log,
                num: lin_of(Tab::Sel(2)),
                comps: seq![
                    lin_shift(lin_of(Tab::Ctr(CTR_LR)), 1),
                    lin_of(Tab::Ctr(CTR_OUT)),
                    lin_constant(0),
                ],
            },
        ],
    }
}

pub open spec fn eq_entries(p: ProfileView) -> EqualityView {
    EqualityView {
        name: "constraint entries fetch their row"@,
        left: seq![
            BlockView {
                log_len: log2_ceil(p.entry_len) as int,
                num: lin_plus(lin_plus(lin_of(seg_ind(p, 0)), 1, seg_ind(p, 1)), 1, seg_ind(p, 2)),
                comps: lins_of(seq![Tab::Row, Tab::MaxRead, Tab::EntLin]),
            },
        ],
        right: seq![
            BlockView {
                log_len: log2_ceil(p.cons_line) as int,
                num: lin_of(Tab::CntC),
                comps: lins_of(seq![Tab::Identity, Tab::RowOut, Tab::IsLin]),
            },
        ],
    }
}

pub open spec fn eq_lookup_entries(p: ProfileView) -> EqualityView {
    EqualityView {
        name: "lookup entries fetch their bound"@,
        left: seq![
            BlockView {
                log_len: log2_ceil(p.entry_len) as int,
                num: lin_of(seg_ind(p, 3)),
                comps: seq![lin_shift(lin_of(Tab::Row), -p.row_flag), lin_of(Tab::MaxRead)],
            },
        ],
        right: seq![
            BlockView {
                log_len: log2_ceil(p.lu_line) as int,
                num: lin_of(Tab::CntL),
                comps: lins_of(seq![Tab::Identity, Tab::LuOut]),
            },
        ],
    }
}

pub open spec fn eq_prefix_entries(p: ProfileView) -> EqualityView {
    EqualityView {
        name: "prefix entries fetch their row"@,
        left: seq![
            BlockView {
                log_len: log2_ceil(p.b_pre_len) as int,
                num: lin_of(ind(0, p.b_pre_len)),
                comps: lins_of(seq![Tab::BRow, Tab::BEntLin]),
            },
        ],
        right: seq![
            BlockView {
                log_len: log2_ceil(p.cons_line) as int,
                num: lin_of(Tab::BCnt),
                comps: lins_of(seq![Tab::Identity, Tab::IsLin]),
            },
        ],
    }
}

/// One over a constant plus a vector, for all places.
pub open spec fn range_block(log: int, t: Tab) -> BlockView {
    BlockView { log_len: log, num: lin_of(Tab::One), comps: seq![lin_of(t)] }
}

pub open spec fn eq_ranges(p: ProfileView) -> EqualityView {
    let cons = log2_ceil(p.cons_line) as int;
    let x = log2_ceil(p.x_len) as int;
    EqualityView {
        name: "slacks are in range"@,
        left: seq![
            range_block(log2_ceil(p.entry_len) as int, Tab::Diff),
            range_block(log2_ceil(p.b_pre_len) as int, Tab::DiffPre),
            range_block(cons, Tab::RowSlackLo),
            range_block(cons, Tab::RowSlackHi),
            range_block(x, Tab::XDigit(0)),
            range_block(x, Tab::XDigitSlack(0)),
            range_block(x, Tab::XDigit(1)),
            range_block(x, Tab::XDigitSlack(1)),
            range_block(x, Tab::XDigit(2)),
            range_block(x, Tab::XDigitSlack(2)),
            range_block(x, Tab::XDigit(3)),
            range_block(x, Tab::XDigitSlack(3)),
        ],
        right: seq![
            BlockView {
                log_len: p.log_range,
                num: lin_of(Tab::RangeCnt),
                comps: lins_of(seq![Tab::Identity]),
            },
        ],
    }
}

/// The row, column, coefficient and power of the entries on the suffix columns.
pub open spec fn entry_lins(p: ProfileView) -> Seq<LinView> {
    seq![
        lin_of(Tab::Row),
        lin_shift(lin_of(Tab::Col), p.weight_len),
        lin_of(Tab::Val),
        lin_of(Tab::Pow),
    ]
}

/// A block over the instructions with a selector, that says the row, the cell and
/// the coefficient of an entry without power.
pub open spec fn cell_block(log: int, sel: usize, row: LinView, cell: Tab, val: LinView) -> BlockView {
    BlockView {
        log_len: log,
        num: lin_of(Tab::Sel(sel)),
        comps: seq![row, lin_of(cell), val, lin_constant(0)],
    }
}

pub open spec fn eq_products(p: ProfileView) -> EqualityView {
    let log = log2_ceil(p.instr_count + 1) as int;
    let cr = lin_of(Tab::Ctr(CTR_CR));
    EqualityView {
        name: "product rows write the compiled cells"@,
        left: seq![
            BlockView {
                log_len: log2_ceil(p.entry_len) as int,
                num: lin_plus(lin_of(seg_ind(p, 2)), -1, Tab::MaskC),
                comps: entry_lins(p),
            },
        ],
        right: seq![
            cell_block(log, 0, cr, Tab::Ctr(CTR_OUT), lin_constant(1)),
            cell_block(log, 2, cr, Tab::Ctr(CTR_OUT), lin_of(Tab::Opn(0))),
            cell_block(log, 2, cr, Tab::Ctr(CTR_AUX), lin_constant(1)),
        ],
    }
}

pub open spec fn eq_outputs(p: ProfileView) -> EqualityView {
    let log = log2_ceil(p.instr_count + 1) as int;
    let lr = lin_of(Tab::Ctr(CTR_LR));
    EqualityView {
        name: "lookup rows write the compiled cells"@,
        left: seq![
            BlockView {
                log_len: log2_ceil(p.entry_len) as int,
                num: lin_of(seg_ind(p, 4)),
                comps: entry_lins(p),
            },
        ],
        right: seq![
            cell_block(log, 1, lin_shift(lr, p.row_flag), Tab::Ctr(CTR_OUT), lin_constant(1)),
            cell_block(log, 2, lin_shift(lr, p.row_flag), Tab::Ctr(CTR_AUX), lin_constant(1)),
            cell_block(log, 2, lin_shift(lr, p.row_flag + 1), Tab::Ctr(CTR_OUT), lin_constant(1)),
        ],
    }
}

pub open spec fn eq_types(p: ProfileView) -> EqualityView {
    let log = log2_ceil(p.instr_count + 1) as int;
    let lr = lin_of(Tab::Ctr(CTR_LR));
    EqualityView {
        name: "lookup types are the compiled ones"@,
        left: seq![
            BlockView {
                log_len: log2_ceil(p.lu_line) as int,
                num: lin_of(ind(0, p.lu_line)),
                comps: lins_of(seq![Tab::Identity, Tab::Tp]),
            },
        ],
        right: seq![
            BlockView {
                log_len: log,
                num: lin_of(Tab::Sel(1)),
                comps: seq![lr, lin_of(Tab::Opn(0))],
            },
            BlockView {
                log_len: log,
                num: lin_of(Tab::Sel(2)),
                comps: seq![lr, lin_plus(lin_constant(0), -1, Tab::Opn(0))],
            },
            BlockView {
                log_len: log,
                num: lin_of(Tab::Sel(2)),
                comps: seq![
                    lin_shift(lr, 1),
                    lin_constant(LookupType::Bound(QUOTIENT_BOUND).tag_of()),
                ],
            },
        ],
    }
}

/// The entries of family `f` carry the operands and counters of their instruction.
pub open spec fn eq_family(p: ProfileView, f: int) -> EqualityView {
    EqualityView {
        name: families_of()[f].name,
        left: seq![
            BlockView {
                log_len: log2_ceil(p.x_len) as int,
                num: lin_of(fam_ind(p, f)),
                comps: lins_of(
                    seq![
                        Tab::XPtr,
                        Tab::XBase,
                        Tab::XCr,
                        Tab::XOut,
                        Tab::XAux,
                        Tab::XOp(0),
                        Tab::XOp(1),
                        Tab::XOp(2),
                        Tab::XOp(3),
                        Tab::XOp(4),
                        Tab::XOp(5),
                    ],
                ),
            },
        ],
        right: seq![
            BlockView {
                log_len: log2_ceil(p.instr_count + 1) as int,
                num: lin_of(Tab::Mult(f as usize)),
                comps: lins_of(
                    seq![
                        Tab::Identity,
                        Tab::Base(f as usize),
                        Tab::Ctr(CTR_CR),
                        Tab::Ctr(CTR_OUT),
                        Tab::Ctr(CTR_AUX),
                        Tab::Opn(0),
                        Tab::Opn(1),
                        Tab::Opn(2),
                        Tab::Opn(3),
                        Tab::Opn(4),
                        Tab::Opn(5),
                    ],
                ),
            },
        ],
    }
}

/// The entries of a matrix on the suffix columns that belong to products and
/// convolutions.
pub open spec fn masked_block(p: ProfileView, mask: Tab, matrix: int) -> BlockView {
    BlockView {
        log_len: log2_ceil(p.entry_len) as int,
        num: lin_of(mask),
        comps: seq![lin_constant(matrix)] + entry_lins(p),
    }
}

/// The row of an entry of a family.
pub open spec fn family_row(f: FamilyView) -> LinView {
    lin_plus(
        lin_of(Tab::XCr),
        1,
        match f.row {
            RowSpec::Digit(j) => Tab::XDigit(j),
            RowSpec::Offset(s) => Tab::XOp(s),
        },
    )
}

/// The column of an entry of a family.
pub open spec fn family_col(p: ProfileView, f: int) -> LinView {
    let base = match families_of()[f].col_base {
        ColBase::Operand(s) => lin_of(Tab::XOp(s)),
        ColBase::Advice => lin_of(Tab::XAux),
        ColBase::Output => lin_of(Tab::XOut),
        ColBase::Unit => lin_constant(0),
    };
    lin_shift(lin_plus(lin_plus(base, 1, Tab::Identity), -1, Tab::XBase), -fam_lo(p, f))
}

/// The entries of family `f`.
pub open spec fn family_block(p: ProfileView, f: int) -> BlockView {
    BlockView {
        log_len: log2_ceil(p.x_len) as int,
        num: lin_of(fam_ind(p, f)),
        comps: seq![
            lin_constant(families_of()[f].matrix),
            family_row(families_of()[f]),
            family_col(p, f),
            lin_constant(1),
            lin_of(Tab::XPow),
        ],
    }
}

pub open spec fn eq_expansion(p: ProfileView) -> EqualityView {
    EqualityView {
        name: "linear-algebra rows are the expansion"@,
        left: seq![
            masked_block(p, Tab::MaskA, 0),
            masked_block(p, Tab::MaskB, 1),
            masked_block(p, Tab::MaskC, 2),
            BlockView {
                log_len: log2_ceil(p.b_pre_len) as int,
                num: lin_of(Tab::MaskPre),
                comps: seq![lin_constant(1)] + lins_of(
                    seq![Tab::BRow, Tab::BCol, Tab::BVal, Tab::BPow],
                ),
            },
        ],
        right: Seq::new(NUM_FAMILIES as nat, |f: int| family_block(p, f)),
    }
}

/// All the equalities, in order.
#[verifier::opaque]
pub open spec fn equalities_of(p: ProfileView) -> Seq<EqualityView> {
    seq![
        eq_counters(p),
        eq_rows(p),
        eq_lookups(p),
        eq_entries(p),
        eq_lookup_entries(p),
        eq_prefix_entries(p),
        eq_ranges(p),
        eq_products(p),
        eq_outputs(p),
        eq_types(p),
    ] + Seq::new(NUM_FAMILIES as nat, |f: int| eq_family(p, f)) + seq![eq_expansion(p)]
}

/// All the rules for a profile.
pub open spec fn rules_of(p: ProfileView) -> RulesView {
    RulesView { zero_checks: zero_checks_of(p), equalities: equalities_of(p) }
}

fn seg_ind_exec(profile: &RegistrationProfile, m: usize) -> (out: Tab)
    requires
        profile_fits(profile@),
        m < 5,
    ensures
        out == seg_ind(profile@, m as int),
{
    let (lo, hi) = profile.segment(m);
    Tab::Ind(lo, hi)
}

fn fam_ind_exec(profile: &RegistrationProfile, f: usize) -> (out: Tab)
    requires
        profile_fits(profile@),
        f < NUM_FAMILIES,
    ensures
        out == fam_ind(profile@, f as int),
{
    let (lo, hi) = profile.family_range(f);
    Tab::Ind(lo, hi)
}

fn fam_lo_exec(profile: &RegistrationProfile, f: usize) -> (out: i64)
    requires
        profile_fits(profile@),
        f < NUM_FAMILIES,
    ensures
        out == fam_lo(profile@, f as int),
        0 <= out <= size_limit(),
{
    let (lo, _) = profile.family_range(f);
    proof {
        lemma_cumulated(profile@.family_lens, f as int, NUM_FAMILIES as int);
    }
    lo as i64
}

fn program_tabs_exec() -> (out: Vec<Tab>)
    ensures
        out@ == program_tabs(),
{
    let out = vec![
        Tab::Sel(0),
        Tab::Sel(1),
        Tab::Sel(2),
        Tab::Sel(3),
        Tab::Sel(4),
        Tab::Opn(0),
        Tab::Opn(1),
        Tab::Opn(2),
        Tab::Opn(3),
        Tab::Opn(4),
        Tab::Opn(5),
    ];
    assert(out@ =~= program_tabs());
    out
}

fn selectors_check(profile: &RegistrationProfile) -> (out: ZeroCheck)
    ensures
        out@ == check_selectors(profile@),
{
    let mut gs: Vec<Gate> = Vec::new();
    for j in 0..NUM_OPCODES
        invariant
            gs.len() == j,
            forall|l: int| 0 <= l < j ==> (#[trigger] gs[l]) == selector_gates()[l],
    {
        gs.push(times(var(j), minus(var(j), constant(1))));
    }
    gs.push(
        minus(plus(plus(plus(plus(var(0), var(1)), var(2)), var(3)), var(4)), var(5)),
    );
    assert(gs@ =~= selector_gates());
    let out = ZeroCheck {
        name: "selectors are one-hot",
        log_len: profile.log_instr(),
        degree: 3,
        tables: vec![
            Tab::Sel(0),
            Tab::Sel(1),
            Tab::Sel(2),
            Tab::Sel(3),
            Tab::Sel(4),
            Tab::Ind(0, profile.instr_count),
        ],
        gate: join(0, gs),
    };
    assert(out@.tables =~= check_selectors(profile@).tables);
    out
}

fn increments_check(profile: &RegistrationProfile) -> (out: ZeroCheck)
    ensures
        out@ == check_increments(profile@),
{
    let side = || -> (s: Gate)
        ensures
            s == g_sub(g_add(g_var(7), g_var(8)), g_num(1)),
    { minus(plus(var(7), var(8)), constant(1)) };
    let d_out = plus(
        plus(plus(plus(var(0), var(1)), var(2)), times(times(var(3), var(5)), var(7))),
        times(times(times(var(4), var(6)), side()), side()),
    );
    let d_aux = plus(plus(var(2), times(var(3), var(6))), times(var(4), var(5)));
    let d_cr = plus(
        plus(plus(var(0), var(2)), times(var(3), plus(var(6), constant(1)))),
        times(var(4), plus(var(5), constant(1))),
    );
    let d_lr = plus(var(1), plus(var(2), var(2)));
    let gate = plus(
        plus(
            plus(
                times(coin(1), minus(var(11), d_out)),
                times(coin(2), minus(var(12), d_aux)),
            ),
            times(coin(3), minus(var(13), d_cr)),
        ),
        times(coin(4), minus(var(14), d_lr)),
    );
    assert(gate == increment_gate());
    let mut tables = program_tabs_exec();
    tables.push(Tab::DCtr(0));
    tables.push(Tab::DCtr(1));
    tables.push(Tab::DCtr(2));
    tables.push(Tab::DCtr(3));
    let out = ZeroCheck {
        name: "counter increments match the opcode",
        log_len: profile.log_instr(),
        degree: 5,
        tables,
        gate,
    };
    assert(out@.tables =~= check_increments(profile@).tables);
    out
}

fn sides_gate_exec(f: &Family, base: usize) -> (out: Gate)
    requires
        family_wf(f@),
        base + NUM_OPERANDS <= usize::MAX,
    ensures
        out == sides_gate(f@, base as int, f@.radices.len() as int),
{
    let mut out = constant(1);
    for n in 0..f.radices.len()
        invariant
            family_wf(f@),
            base + NUM_OPERANDS <= usize::MAX,
            out == sides_gate(f@, base as int, n as int),
    {
        assert(crate::registration::family::ex_reads(f@.radices[n as int], NUM_OPERANDS as nat));
        out = times(out, f.radices[n].gate(base));
    }
    out
}

/// The families are at hand.
spec fn at_hand(fams: Vec<Family>) -> bool {
    &&& fams.len() == NUM_FAMILIES
    &&& family_views(fams@) == families_of()
}

proof fn lemma_at_hand(fams: Vec<Family>, f: int)
    requires
        at_hand(fams),
        0 <= f < NUM_FAMILIES,
    ensures
        fams[f]@ == families_of()[f],
        family_wf(fams[f]@),
{
    lemma_families();
    assert(family_views(fams@)[f] == fams[f]@);
}

fn sizes_check(profile: &RegistrationProfile, fams: &Vec<Family>) -> (out: ZeroCheck)
    requires
        at_hand(*fams),
    ensures
        out@ == check_sizes(profile@),
{
    let mut gs: Vec<Gate> = Vec::new();
    let mut tables = program_tabs_exec();
    for f in 0..NUM_FAMILIES
        invariant
            at_hand(*fams),
            gs.len() == f,
            forall|l: int| 0 <= l < f ==> (#[trigger] gs[l]) == size_gates()[l],
            tables@ == program_tabs() + Seq::new(f as nat, |f: int| Tab::Mult(f as usize)),
    {
        proof {
            lemma_at_hand(*fams, f as int);
        }
        gs.push(
            minus(
                var(11 + f),
                times(var(fams[f].opcode.index()), sides_gate_exec(&fams[f], NUM_OPCODES)),
            ),
        );
        let ghost before = tables@;
        tables.push(Tab::Mult(f));
        assert(tables@ =~= program_tabs() + Seq::new(
            (f + 1) as nat,
            |f: int| Tab::Mult(f as usize),
        ));
    }
    assert(gs@ =~= size_gates());
    ZeroCheck {
        name: "family sizes match the operands",
        log_len: profile.log_instr(),
        degree: 6,
        tables,
        gate: join(6, gs),
    }
}

fn read_slack_check(profile: &RegistrationProfile) -> (out: ZeroCheck)
    requires
        profile_fits(profile@),
    ensures
        out@ == check_read_slack(profile@),
{
    let plain = minus(minus(plus(plus(var(3), var(4)), var(5)), var(6)), var(7));
    let wl: i64 = profile.weight_len as i64;
    let out = ZeroCheck {
        name: "read slack is well formed",
        log_len: profile.log_entry(),
        degree: 3,
        tables: vec![
            Tab::Diff,
            Tab::MaxRead,
            Tab::Col,
            seg_ind_exec(profile, 0),
            seg_ind_exec(profile, 1),
            seg_ind_exec(profile, 3),
            Tab::MaskA,
            Tab::MaskB,
        ],
        gate: minus(
            var(0),
            times(plain, minus(minus(minus(var(1), constant(wl)), var(2)), constant(1))),
        ),
    };
    assert(out@.tables =~= check_read_slack(profile@).tables);
    out
}

fn prefix_slack_check(profile: &RegistrationProfile) -> (out: ZeroCheck)
    requires
        profile_fits(profile@),
    ensures
        out@ == check_prefix_slack(profile@),
{
    let wl: i64 = profile.weight_len as i64;
    let out = ZeroCheck {
        name: "prefix slack is well formed",
        log_len: profile.log_b_pre(),
        degree: 3,
        tables: vec![Tab::DiffPre, Tab::BCol, Tab::Ind(0, profile.b_pre_len)],
        gate: minus(var(0), times(var(2), minus(minus(constant(wl), constant(1)), var(1)))),
    };
    assert(out@.tables =~= check_prefix_slack(profile@).tables);
    out
}

fn inputs_check(profile: &RegistrationProfile) -> (out: ZeroCheck)
    ensures
        out@ == check_inputs(profile@),
{
    let out = ZeroCheck {
        name: "only lookup rows read inputs",
        log_len: profile.log_lu(),
        degree: 3,
        tables: vec![Tab::CntL, Tab::IsLookup],
        gate: times(var(0), minus(constant(1), var(1))),
    };
    assert(out@.tables =~= check_inputs(profile@).tables);
    out
}

fn plain_powers_check(profile: &RegistrationProfile) -> (out: ZeroCheck)
    requires
        profile_fits(profile@),
    ensures
        out@ == check_plain_powers(profile@),
{
    let out = ZeroCheck {
        name: "plain rows carry no powers",
        log_len: profile.log_entry(),
        degree: 3,
        tables: vec![
            Tab::Pow,
            seg_ind_exec(profile, 0),
            seg_ind_exec(profile, 1),
            seg_ind_exec(profile, 3),
            Tab::MaskA,
            Tab::MaskB,
        ],
        gate: times(
            minus(minus(plus(plus(var(1), var(2)), var(3)), var(4)), var(5)),
            var(0),
        ),
    };
    assert(out@.tables =~= check_plain_powers(profile@).tables);
    out
}

fn prefix_powers_check(profile: &RegistrationProfile) -> (out: ZeroCheck)
    ensures
        out@ == check_prefix_powers(profile@),
{
    let out = ZeroCheck {
        name: "prefix rows carry no powers",
        log_len: profile.log_b_pre(),
        degree: 3,
        tables: vec![Tab::BPow, Tab::Ind(0, profile.b_pre_len), Tab::MaskPre],
        gate: times(minus(var(1), var(2)), var(0)),
    };
    assert(out@.tables =~= check_prefix_powers(profile@).tables);
    out
}

fn masks_check(profile: &RegistrationProfile) -> (out: ZeroCheck)
    requires
        profile_fits(profile@),
    ensures
        out@ == check_masks(profile@),
{
    let mut gs: Vec<Gate> = Vec::new();
    gs.push(minus(var(0), times(var(4), var(3))));
    gs.push(minus(var(1), times(var(5), var(3))));
    gs.push(minus(var(2), times(var(6), var(3))));
    assert(gs@ =~= mask_gates());
    let out = ZeroCheck {
        name: "segment masks follow the rows",
        log_len: profile.log_entry(),
        degree: 3,
        tables: vec![
            Tab::MaskA,
            Tab::MaskB,
            Tab::MaskC,
            Tab::EntLin,
            seg_ind_exec(profile, 0),
            seg_ind_exec(profile, 1),
            seg_ind_exec(profile, 2),
        ],
        gate: join(5, gs),
    };
    assert(out@.tables =~= check_masks(profile@).tables);
    out
}

fn prefix_mask_check(profile: &RegistrationProfile) -> (out: ZeroCheck)
    ensures
        out@ == check_prefix_mask(profile@),
{
    let out = ZeroCheck {
        name: "prefix mask follows the rows",
        log_len: profile.log_b_pre(),
        degree: 3,
        tables: vec![Tab::MaskPre, Tab::BEntLin, Tab::Ind(0, profile.b_pre_len)],
        gate: minus(var(0), times(var(2), var(1))),
    };
    assert(out@.tables =~= check_prefix_mask(profile@).tables);
    out
}

fn blocks_check(profile: &RegistrationProfile) -> (out: ZeroCheck)
    ensures
        out@ == check_blocks(profile@),
{
    let mut gs: Vec<Gate> = Vec::new();
    gs.push(minus(var(0), times(var(5), minus(var(4), var(2)))));
    gs.push(
        minus(
            var(1),
            times(var(5), minus(minus(plus(var(2), var(3)), constant(1)), var(4))),
        ),
    );
    assert(gs@ =~= block_gates());
    let out = ZeroCheck {
        name: "rows sit inside their block",
        log_len: profile.log_cons(),
        degree: 3,
        tables: vec![
            Tab::RowSlackLo,
            Tab::RowSlackHi,
            Tab::RowCr,
            Tab::RowDcr,
            Tab::Identity,
            Tab::Ind(0, profile.cons_line),
        ],
        gate: join(5, gs),
    };
    assert(out@.tables =~= check_blocks(profile@).tables);
    out
}

fn with_family_tabs(profile: &RegistrationProfile, before: Vec<Tab>) -> (out: Vec<Tab>)
    requires
        profile_fits(profile@),
    ensures
        out@ == before@ + digit_tabs() + family_tabs(profile@),
{
    let ghost start = before@;
    let mut out = before;
    out.push(Tab::XDigit(0));
    out.push(Tab::XDigit(1));
    out.push(Tab::XDigit(2));
    out.push(Tab::XDigit(3));
    out.push(Tab::XOp(0));
    out.push(Tab::XOp(1));
    out.push(Tab::XOp(2));
    out.push(Tab::XOp(3));
    out.push(Tab::XOp(4));
    out.push(Tab::XOp(5));
    let ghost ops = seq![
        Tab::XOp(0),
        Tab::XOp(1),
        Tab::XOp(2),
        Tab::XOp(3),
        Tab::XOp(4),
        Tab::XOp(5),
    ];
    let ghost p = profile@;
    assert(out@ =~= start + digit_tabs() + (ops + Seq::new(0, |f: int| fam_ind(p, f))));
    for f in 0..NUM_FAMILIES
        invariant
            p == profile@,
            profile_fits(p),
            out@ == start + digit_tabs() + (ops + Seq::new(f as nat, |f: int| fam_ind(p, f))),
    {
        out.push(fam_ind_exec(profile, f));
        assert(out@ =~= start + digit_tabs() + (ops + Seq::new(
            (f + 1) as nat,
            |f: int| fam_ind(p, f),
        )));
    }
    out
}

fn flat_gate_exec(lo: i64, at: usize) -> (out: Gate)
    requires
        at < 100,
    ensures
        out == flat_gate(lo as int, at as int),
{
    minus(minus(var(at), constant(lo)), var(at + 1))
}

fn number_gate_exec(f: &Family, digits: usize, ops: usize) -> (out: Gate)
    requires
        family_wf(f@),
        digits < 100,
        ops < 100,
    ensures
        out == number_gate(f@, digits as int, ops as int, f@.radices.len() as int),
{
    let mut out = var(digits);
    for n in 1..f.radices.len()
        invariant
            family_wf(f@),
            digits < 100,
            ops < 100,
            out == number_gate(f@, digits as int, ops as int, n as int),
    {
        assert(crate::registration::family::ex_reads(f@.radices[n as int], NUM_OPERANDS as nat));
        out = plus(times(out, f.radices[n].gate(ops)), var(digits + n));
    }
    out
}

fn unused_gate_exec(digits: usize, k: usize) -> (out: Gate)
    requires
        digits < 100,
        k <= MAX_DIGITS,
    ensures
        out == unused_gate(digits as int, k as int),
    decreases MAX_DIGITS - k,
{
    if k >= MAX_DIGITS {
        constant(0)
    } else {
        plus(var(digits + k), unused_gate_exec(digits, k + 1))
    }
}

fn positions_check(profile: &RegistrationProfile, fams: &Vec<Family>) -> (out: ZeroCheck)
    requires
        profile_fits(profile@),
        at_hand(*fams),
    ensures
        out@ == check_positions(profile@),
{
    let ghost p = profile@;
    let mut gs: Vec<Gate> = Vec::new();
    for f in 0..NUM_FAMILIES
        invariant
            p == profile@,
            profile_fits(p),
            at_hand(*fams),
            gs.len() == f,
            forall|l: int| 0 <= l < f ==> (#[trigger] gs[l]) == position_gates(p)[l],
    {
        proof {
            lemma_at_hand(*fams, f as int);
        }
        let digits: usize = fams[f].digits();
        gs.push(
            times(
                var(12 + f),
                plus(
                    minus(
                        flat_gate_exec(fam_lo_exec(profile, f), 0),
                        number_gate_exec(&fams[f], 2, 6),
                    ),
                    unused_gate_exec(2, digits),
                ),
            ),
        );
    }
    assert(gs@ =~= position_gates(p));
    let start = vec![Tab::Identity, Tab::XBase];
    assert(start@ =~= seq![Tab::Identity, Tab::XBase]);
    ZeroCheck {
        name: "expansion digits decode the position",
        log_len: profile.log_x(),
        degree: 6,
        tables: with_family_tabs(profile, start),
        gate: join(7, gs),
    }
}

fn left_gate_exec(f: &Family, j: usize) -> (out: Gate)
    requires
        family_wf(f@),
        j < MAX_DIGITS,
    ensures
        out == left_gate(f@, j as int),
{
    if j < f.radices.len() {
        assert(crate::registration::family::ex_reads(f@.radices[j as int], NUM_OPERANDS as nat));
        minus(minus(f.radices[j].gate(8), constant(1)), var(4 + j))
    } else {
        constant(0)
    }
}

fn sides_check(profile: &RegistrationProfile, fams: &Vec<Family>) -> (out: ZeroCheck)
    requires
        profile_fits(profile@),
        at_hand(*fams),
    ensures
        out@ == check_sides(profile@),
{
    let mut gs: Vec<Gate> = Vec::new();
    for f in 0..NUM_FAMILIES
        invariant
            at_hand(*fams),
            gs.len() == f * MAX_DIGITS,
            forall|l: int| 0 <= l < gs.len() ==> (#[trigger] gs[l]) == left_gates()[l],
    {
        proof {
            lemma_at_hand(*fams, f as int);
        }
        for j in 0..MAX_DIGITS
            invariant
                f < NUM_FAMILIES,
                at_hand(*fams),
                fams[f as int]@ == families_of()[f as int],
                family_wf(fams[f as int]@),
                gs.len() == f * MAX_DIGITS + j,
                forall|l: int| 0 <= l < gs.len() ==> (#[trigger] gs[l]) == left_gates()[l],
        {
            let ghost t = f * MAX_DIGITS + j;
            assert(t / MAX_DIGITS as int == f && t % MAX_DIGITS as int == j);
            gs.push(times(var(14 + f), minus(var(j), left_gate_exec(&fams[f], j))));
        }
    }
    assert(gs@ =~= left_gates());
    let start = vec![
        Tab::XDigitSlack(0),
        Tab::XDigitSlack(1),
        Tab::XDigitSlack(2),
        Tab::XDigitSlack(3),
    ];
    assert(start@ =~= seq![
        Tab::XDigitSlack(0),
        Tab::XDigitSlack(1),
        Tab::XDigitSlack(2),
        Tab::XDigitSlack(3),
    ]);
    ZeroCheck {
        name: "expansion digits stay inside their loop",
        log_len: profile.log_x(),
        degree: 4,
        tables: with_family_tabs(profile, start),
        gate: join(7, gs),
    }
}

fn power_gate_exec(f: &Family, lo: i64) -> (out: Gate)
    requires
        family_wf(f@),
    ensures
        out == power_gate(f@, lo as int, f@.pow.len() as int),
{
    let mut out = f.pow_const.gate(7);
    for n in 0..f.pow.len()
        invariant
            family_wf(f@),
            out == power_gate(f@, lo as int, n as int),
    {
        let ghost term = f@.pow[n as int];
        assert(crate::registration::family::ex_reads(term.0, NUM_OPERANDS as nat));
        let value = match f.pow[n].1 {
            PowTerm::Digit(j) => var(3 + j),
            PowTerm::Flat => flat_gate_exec(lo, 1),
        };
        out = plus(out, times(f.pow[n].0.gate(7), value));
    }
    out
}

fn powers_check(profile: &RegistrationProfile, fams: &Vec<Family>) -> (out: ZeroCheck)
    requires
        profile_fits(profile@),
        at_hand(*fams),
    ensures
        out@ == check_powers(profile@),
{
    let ghost p = profile@;
    let mut gs: Vec<Gate> = Vec::new();
    for f in 0..NUM_FAMILIES
        invariant
            p == profile@,
            profile_fits(p),
            at_hand(*fams),
            gs.len() == f,
            forall|l: int| 0 <= l < f ==> (#[trigger] gs[l]) == power_gates(p)[l],
    {
        proof {
            lemma_at_hand(*fams, f as int);
        }
        let lo: i64 = fam_lo_exec(profile, f);
        gs.push(times(var(13 + f), minus(var(0), power_gate_exec(&fams[f], lo))));
    }
    assert(gs@ =~= power_gates(p));
    let start = vec![Tab::XPow, Tab::Identity, Tab::XBase];
    assert(start@ =~= seq![Tab::XPow, Tab::Identity, Tab::XBase]);
    ZeroCheck {
        name: "expansion powers follow the family",
        log_len: profile.log_x(),
        degree: 5,
        tables: with_family_tabs(profile, start),
        gate: join(7, gs),
    }
}

fn build_zero_checks(profile: &RegistrationProfile, fams: &Vec<Family>) -> (out: Vec<ZeroCheck>)
    requires
        profile_fits(profile@),
        at_hand(*fams),
    ensures
        check_views(out@) == zero_checks_of(profile@),
{
    reveal(zero_checks_of);
    let mut out: Vec<ZeroCheck> = Vec::new();
    out.push(selectors_check(profile));
    out.push(increments_check(profile));
    out.push(sizes_check(profile, fams));
    out.push(read_slack_check(profile));
    out.push(prefix_slack_check(profile));
    out.push(inputs_check(profile));
    out.push(plain_powers_check(profile));
    out.push(prefix_powers_check(profile));
    out.push(masks_check(profile));
    out.push(prefix_mask_check(profile));
    out.push(blocks_check(profile));
    out.push(positions_check(profile, fams));
    out.push(sides_check(profile, fams));
    out.push(powers_check(profile, fams));
    assert(check_views(out@) =~= zero_checks_of(profile@));
    out
}

fn lins(tabs: Vec<Tab>) -> (out: Vec<Lin>)
    ensures
        lin_views(out@) == lins_of(tabs@),
{
    let mut out: Vec<Lin> = Vec::new();
    for k in 0..tabs.len()
        invariant
            out.len() == k,
            forall|l: int| 0 <= l < k ==> (#[trigger] out[l])@ == lin_of(tabs[l]),
    {
        out.push(Lin::of(tabs[k]));
    }
    assert(lin_views(out@) =~= lins_of(tabs@));
    out
}

fn one_block(b: Block) -> (out: Vec<Block>)
    ensures
        block_views(out@) == seq![b@],
{
    let mut out: Vec<Block> = Vec::new();
    out.push(b);
    assert(block_views(out@) =~= seq![b@]);
    out
}

fn counters_equality(profile: &RegistrationProfile) -> (out: Equality)
    requires
        profile_fits(profile@),
    ensures
        out@ == eq_counters(profile@),
{
    let log: usize = profile.log_instr();
    proof {
        crate::sparse::lemma_table_size(profile@.instr_count + 1);
        crate::sums::lemma_pow2_mono(0, log as nat);
        lemma_pow2_step(0);
    }
    let len: usize = two_pow(log);
    let top: usize = len - 1;
    let mut shifted: Vec<Lin> = Vec::new();
    let mut plain: Vec<Lin> = Vec::new();
    shifted.push(Lin::of(Tab::Identity).shift(1));
    plain.push(Lin::of(Tab::Identity));
    for x in 0..NUM_COUNTERS
        invariant
            shifted.len() == x + 1,
            plain.len() == x + 1,
            forall|l: int| 0 <= l <= x ==> (#[trigger] shifted[l])@ == shifted_counters()[l],
            forall|l: int| 0 <= l <= x ==> (#[trigger] plain[l])@ == plain_counters()[l],
    {
        shifted.push(Lin::of(Tab::Ctr(x)).plus(1, Tab::DCtr(x)));
        plain.push(Lin::of(Tab::Ctr(x)));
    }
    for f in 0..NUM_FAMILIES
        invariant
            shifted.len() == f + 5,
            plain.len() == f + 5,
            forall|l: int| 0 <= l < f + 5 ==> (#[trigger] shifted[l])@ == shifted_counters()[l],
            forall|l: int| 0 <= l < f + 5 ==> (#[trigger] plain[l])@ == plain_counters()[l],
    {
        shifted.push(Lin::of(Tab::Base(f)).plus(1, Tab::Mult(f)));
        plain.push(Lin::of(Tab::Base(f)));
    }
    assert(lin_views(shifted@) =~= shifted_counters());
    assert(lin_views(plain@) =~= plain_counters());
    Equality {
        name: "counters advance",
        left: one_block(
            Block {
                log_len: log,
                num: Lin::constant(1).plus(-1, Tab::Ind(top, len)),
                comps: shifted,
            },
        ),
        right: one_block(
            Block { log_len: log, num: Lin::constant(1).plus(-1, Tab::Ind(0, 1)), comps: plain },
        ),
    }
}

fn rows_equality(profile: &RegistrationProfile) -> (out: Equality)
    ensures
        out@ == eq_rows(profile@),
{
    let left = vec![Tab::RowPtr, Tab::RowCr, Tab::RowOut, Tab::RowDcr, Tab::IsLin];
    assert(left@ =~= seq![Tab::RowPtr, Tab::RowCr, Tab::RowOut, Tab::RowDcr, Tab::IsLin]);
    let right = vec![Tab::Identity, Tab::Ctr(CTR_CR), Tab::Ctr(CTR_OUT), Tab::DCtr(CTR_CR)];
    assert(right@ =~= seq![
        Tab::Identity,
        Tab::Ctr(CTR_CR),
        Tab::Ctr(CTR_OUT),
        Tab::DCtr(CTR_CR),
    ]);
    let mut comps = lins(right);
    let ghost before = lin_views(comps@);
    comps.push(Lin::of(Tab::Sel(3)).plus(1, Tab::Sel(4)));
    assert(lin_views(comps@) =~= before.push(lin_plus(lin_of(Tab::Sel(3)), 1, Tab::Sel(4))));
    Equality {
        name: "constraint rows belong to their instruction",
        left: one_block(
            Block {
                log_len: profile.log_cons(),
                num: Lin::of(Tab::Ind(0, profile.cons_line)),
                comps: lins(left),
            },
        ),
        right: one_block(
            Block { log_len: profile.log_instr(), num: Lin::of(Tab::DCtr(CTR_CR)), comps },
        ),
    }
}

fn lookups_equality(profile: &RegistrationProfile) -> (out: Equality)
    ensures
        out@ == eq_lookups(profile@),
{
    let log: usize = profile.log_instr();
    let left = vec![Tab::Identity, Tab::LuOut, Tab::IsLookup];
    assert(left@ =~= seq![Tab::Identity, Tab::LuOut, Tab::IsLookup]);
    let first = vec![Tab::Ctr(CTR_LR), Tab::Ctr(CTR_OUT), Tab::Sel(1)];
    assert(first@ =~= seq![Tab::Ctr(CTR_LR), Tab::Ctr(CTR_OUT), Tab::Sel(1)]);
    let mut second: Vec<Lin> = Vec::new();
    second.push(Lin::of(Tab::Ctr(CTR_LR)).shift(1));
    second.push(Lin::of(Tab::Ctr(CTR_OUT)));
    second.push(Lin::constant(0));
    assert(lin_views(second@) =~= eq_lookups(profile@).right[1].comps);
    let mut right: Vec<Block> = Vec::new();
    right.push(
        Block {
            log_len: log,
            num: Lin::of(Tab::Sel(1)).plus(1, Tab::Sel(2)),
            comps: lins(first),
        },
    );
    right.push(Block { log_len: log, num: Lin::of(Tab::Sel(2)), comps: second });
    assert(block_views(right@) =~= eq_lookups(profile@).right);
    Equality {
        name: "lookup rows carry their bound",
        left: one_block(
            Block {
                log_len: profile.log_lu(),
                num: Lin::of(Tab::Ind(0, profile.lu_line)),
                comps: lins(left),
            },
        ),
        right,
    }
}

fn entries_equality(profile: &RegistrationProfile) -> (out: Equality)
    requires
        profile_fits(profile@),
    ensures
        out@ == eq_entries(profile@),
{
    let left = vec![Tab::Row, Tab::MaxRead, Tab::EntLin];
    assert(left@ =~= seq![Tab::Row, Tab::MaxRead, Tab::EntLin]);
    let right = vec![Tab::Identity, Tab::RowOut, Tab::IsLin];
    assert(right@ =~= seq![Tab::Identity, Tab::RowOut, Tab::IsLin]);
    Equality {
        name: "constraint entries fetch their row",
        left: one_block(
            Block {
                log_len: profile.log_entry(),
                num: Lin::of(seg_ind_exec(profile, 0)).plus(1, seg_ind_exec(profile, 1)).plus(
                    1,
                    seg_ind_exec(profile, 2),
                ),
                comps: lins(left),
            },
        ),
        right: one_block(
            Block { log_len: profile.log_cons(), num: Lin::of(Tab::CntC), comps: lins(right) },
        ),
    }
}

fn lookup_entries_equality(profile: &RegistrationProfile) -> (out: Equality)
    requires
        profile_fits(profile@),
    ensures
        out@ == eq_lookup_entries(profile@),
{
    let flag: i64 = profile.row_flag as i64;
    let mut left: Vec<Lin> = Vec::new();
    left.push(Lin::of(Tab::Row).shift(-flag));
    left.push(Lin::of(Tab::MaxRead));
    assert(lin_views(left@) =~= eq_lookup_entries(profile@).left[0].comps);
    let right = vec![Tab::Identity, Tab::LuOut];
    assert(right@ =~= seq![Tab::Identity, Tab::LuOut]);
    Equality {
        name: "lookup entries fetch their bound",
        left: one_block(
            Block {
                log_len: profile.log_entry(),
                num: Lin::of(seg_ind_exec(profile, 3)),
                comps: left,
            },
        ),
        right: one_block(
            Block { log_len: profile.log_lu(), num: Lin::of(Tab::CntL), comps: lins(right) },
        ),
    }
}

fn prefix_entries_equality(profile: &RegistrationProfile) -> (out: Equality)
    ensures
        out@ == eq_prefix_entries(profile@),
{
    let left = vec![Tab::BRow, Tab::BEntLin];
    assert(left@ =~= seq![Tab::BRow, Tab::BEntLin]);
    let right = vec![Tab::Identity, Tab::IsLin];
    assert(right@ =~= seq![Tab::Identity, Tab::IsLin]);
    Equality {
        name: "prefix entries fetch their row",
        left: one_block(
            Block {
                log_len: profile.log_b_pre(),
                num: Lin::of(Tab::Ind(0, profile.b_pre_len)),
                comps: lins(left),
            },
        ),
        right: one_block(
            Block { log_len: profile.log_cons(), num: Lin::of(Tab::BCnt), comps: lins(right) },
        ),
    }
}

fn range_block_exec(log: usize, t: Tab) -> (out: Block)
    ensures
        out@ == range_block(log as int, t),
{
    let comps = lins(vec![t]);
    let out = Block { log_len: log, num: Lin::of(Tab::One), comps };
    assert(out@.comps =~= seq![lin_of(t)]);
    out
}

fn ranges_equality(profile: &RegistrationProfile) -> (out: Equality)
    ensures
        out@ == eq_ranges(profile@),
{
    let cons: usize = profile.log_cons();
    let x: usize = profile.log_x();
    let mut left: Vec<Block> = Vec::new();
    left.push(range_block_exec(profile.log_entry(), Tab::Diff));
    left.push(range_block_exec(profile.log_b_pre(), Tab::DiffPre));
    left.push(range_block_exec(cons, Tab::RowSlackLo));
    left.push(range_block_exec(cons, Tab::RowSlackHi));
    left.push(range_block_exec(x, Tab::XDigit(0)));
    left.push(range_block_exec(x, Tab::XDigitSlack(0)));
    left.push(range_block_exec(x, Tab::XDigit(1)));
    left.push(range_block_exec(x, Tab::XDigitSlack(1)));
    left.push(range_block_exec(x, Tab::XDigit(2)));
    left.push(range_block_exec(x, Tab::XDigitSlack(2)));
    left.push(range_block_exec(x, Tab::XDigit(3)));
    left.push(range_block_exec(x, Tab::XDigitSlack(3)));
    assert(block_views(left@) =~= eq_ranges(profile@).left);
    let right = vec![Tab::Identity];
    assert(right@ =~= seq![Tab::Identity]);
    Equality {
        name: "slacks are in range",
        left,
        right: one_block(
            Block { log_len: profile.log_range, num: Lin::of(Tab::RangeCnt), comps: lins(right) },
        ),
    }
}

fn entry_lins_exec(profile: &RegistrationProfile, before: Vec<Lin>) -> (out: Vec<Lin>)
    requires
        profile_fits(profile@),
    ensures
        lin_views(out@) == lin_views(before@) + entry_lins(profile@),
{
    let ghost start = lin_views(before@);
    let mut out = before;
    out.push(Lin::of(Tab::Row));
    out.push(Lin::of(Tab::Col).shift(profile.weight_len as i64));
    out.push(Lin::of(Tab::Val));
    out.push(Lin::of(Tab::Pow));
    assert(lin_views(out@) =~= start + entry_lins(profile@));
    out
}

fn plain_entry_lins(profile: &RegistrationProfile) -> (out: Vec<Lin>)
    requires
        profile_fits(profile@),
    ensures
        lin_views(out@) == entry_lins(profile@),
{
    let none: Vec<Lin> = Vec::new();
    let out = entry_lins_exec(profile, none);
    assert(lin_views(none@) + entry_lins(profile@) =~= entry_lins(profile@));
    out
}

fn cell_block_exec(log: usize, sel: usize, row: Lin, cell: Tab, val: Lin) -> (out: Block)
    ensures
        out@ == cell_block(log as int, sel, row@, cell, val@),
{
    let mut comps: Vec<Lin> = Vec::new();
    comps.push(row);
    comps.push(Lin::of(cell));
    comps.push(val);
    comps.push(Lin::constant(0));
    let out = Block { log_len: log, num: Lin::of(Tab::Sel(sel)), comps };
    assert(out@.comps =~= cell_block(log as int, sel, row@, cell, val@).comps);
    out
}

fn products_equality(profile: &RegistrationProfile) -> (out: Equality)
    requires
        profile_fits(profile@),
    ensures
        out@ == eq_products(profile@),
{
    let log: usize = profile.log_instr();
    let mut right: Vec<Block> = Vec::new();
    right.push(
        cell_block_exec(
            log,
            0,
            Lin::of(Tab::Ctr(CTR_CR)),
            Tab::Ctr(CTR_OUT),
            Lin::constant(1),
        ),
    );
    right.push(
        cell_block_exec(
            log,
            2,
            Lin::of(Tab::Ctr(CTR_CR)),
            Tab::Ctr(CTR_OUT),
            Lin::of(Tab::Opn(0)),
        ),
    );
    right.push(
        cell_block_exec(
            log,
            2,
            Lin::of(Tab::Ctr(CTR_CR)),
            Tab::Ctr(CTR_AUX),
            Lin::constant(1),
        ),
    );
    assert(block_views(right@) =~= eq_products(profile@).right);
    Equality {
        name: "product rows write the compiled cells",
        left: one_block(
            Block {
                log_len: profile.log_entry(),
                num: Lin::of(seg_ind_exec(profile, 2)).plus(-1, Tab::MaskC),
                comps: plain_entry_lins(profile),
            },
        ),
        right,
    }
}

fn outputs_equality(profile: &RegistrationProfile) -> (out: Equality)
    requires
        profile_fits(profile@),
    ensures
        out@ == eq_outputs(profile@),
{
    let log: usize = profile.log_instr();
    let flag: i64 = profile.row_flag as i64;
    let mut right: Vec<Block> = Vec::new();
    right.push(
        cell_block_exec(
            log,
            1,
            Lin::of(Tab::Ctr(CTR_LR)).shift(flag),
            Tab::Ctr(CTR_OUT),
            Lin::constant(1),
        ),
    );
    right.push(
        cell_block_exec(
            log,
            2,
            Lin::of(Tab::Ctr(CTR_LR)).shift(flag),
            Tab::Ctr(CTR_AUX),
            Lin::constant(1),
        ),
    );
    right.push(
        cell_block_exec(
            log,
            2,
            Lin::of(Tab::Ctr(CTR_LR)).shift(flag + 1),
            Tab::Ctr(CTR_OUT),
            Lin::constant(1),
        ),
    );
    assert(block_views(right@) =~= eq_outputs(profile@).right);
    Equality {
        name: "lookup rows write the compiled cells",
        left: one_block(
            Block {
                log_len: profile.log_entry(),
                num: Lin::of(seg_ind_exec(profile, 4)),
                comps: plain_entry_lins(profile),
            },
        ),
        right,
    }
}

fn pair_of(a: Lin, b: Lin) -> (out: Vec<Lin>)
    ensures
        lin_views(out@) == seq![a@, b@],
{
    let mut out: Vec<Lin> = Vec::new();
    out.push(a);
    out.push(b);
    assert(lin_views(out@) =~= seq![a@, b@]);
    out
}

fn types_equality(profile: &RegistrationProfile) -> (out: Equality)
    ensures
        out@ == eq_types(profile@),
{
    let log: usize = profile.log_instr();
    let left = vec![Tab::Identity, Tab::Tp];
    assert(left@ =~= seq![Tab::Identity, Tab::Tp]);
    let tag: i64 = LookupType::Bound(QUOTIENT_BOUND).tag();
    let mut right: Vec<Block> = Vec::new();
    right.push(
        Block {
            log_len: log,
            num: Lin::of(Tab::Sel(1)),
            comps: pair_of(Lin::of(Tab::Ctr(CTR_LR)), Lin::of(Tab::Opn(0))),
        },
    );
    right.push(
        Block {
            log_len: log,
            num: Lin::of(Tab::Sel(2)),
            comps: pair_of(
                Lin::of(Tab::Ctr(CTR_LR)),
                Lin::constant(0).plus(-1, Tab::Opn(0)),
            ),
        },
    );
    right.push(
        Block {
            log_len: log,
            num: Lin::of(Tab::Sel(2)),
            comps: pair_of(Lin::of(Tab::Ctr(CTR_LR)).shift(1), Lin::constant(tag)),
        },
    );
    assert(block_views(right@) =~= eq_types(profile@).right);
    Equality {
        name: "lookup types are the compiled ones",
        left: one_block(
            Block {
                log_len: profile.log_lu(),
                num: Lin::of(Tab::Ind(0, profile.lu_line)),
                comps: lins(left),
            },
        ),
        right,
    }
}

fn family_equality(profile: &RegistrationProfile, fams: &Vec<Family>, f: usize) -> (out: Equality)
    requires
        profile_fits(profile@),
        at_hand(*fams),
        f < NUM_FAMILIES,
    ensures
        out@ == eq_family(profile@, f as int),
{
    proof {
        lemma_at_hand(*fams, f as int);
    }
    let left = vec![
        Tab::XPtr,
        Tab::XBase,
        Tab::XCr,
        Tab::XOut,
        Tab::XAux,
        Tab::XOp(0),
        Tab::XOp(1),
        Tab::XOp(2),
        Tab::XOp(3),
        Tab::XOp(4),
        Tab::XOp(5),
    ];
    let right = vec![
        Tab::Identity,
        Tab::Base(f),
        Tab::Ctr(CTR_CR),
        Tab::Ctr(CTR_OUT),
        Tab::Ctr(CTR_AUX),
        Tab::Opn(0),
        Tab::Opn(1),
        Tab::Opn(2),
        Tab::Opn(3),
        Tab::Opn(4),
        Tab::Opn(5),
    ];
    let ghost want = eq_family(profile@, f as int);
    assert(lins_of(left@) =~= want.left[0].comps);
    assert(lins_of(right@) =~= want.right[0].comps);
    let out = Equality {
        name: fams[f].name,
        left: one_block(
            Block {
                log_len: profile.log_x(),
                num: Lin::of(fam_ind_exec(profile, f)),
                comps: lins(left),
            },
        ),
        right: one_block(
            Block {
                log_len: profile.log_instr(),
                num: Lin::of(Tab::Mult(f)),
                comps: lins(right),
            },
        ),
    };
    assert(out@.left =~= want.left);
    assert(out@.right =~= want.right);
    out
}

fn masked_block_exec(profile: &RegistrationProfile, mask: Tab, matrix: i64) -> (out: Block)
    requires
        profile_fits(profile@),
    ensures
        out@ == masked_block(profile@, mask, matrix as int),
{
    let mut comps: Vec<Lin> = Vec::new();
    comps.push(Lin::constant(matrix));
    assert(lin_views(comps@) =~= seq![lin_constant(matrix as int)]);
    Block {
        log_len: profile.log_entry(),
        num: Lin::of(mask),
        comps: entry_lins_exec(profile, comps),
    }
}

fn family_block_exec(profile: &RegistrationProfile, fams: &Vec<Family>, f: usize) -> (out: Block)
    requires
        profile_fits(profile@),
        at_hand(*fams),
        f < NUM_FAMILIES,
    ensures
        out@ == family_block(profile@, f as int),
{
    proof {
        lemma_at_hand(*fams, f as int);
    }
    let family = &fams[f];
    let row = Lin::of(Tab::XCr).plus(
        1,
        match family.row {
            RowSpec::Digit(j) => Tab::XDigit(j),
            RowSpec::Offset(s) => Tab::XOp(s),
        },
    );
    let base = match family.col_base {
        ColBase::Operand(s) => Lin::of(Tab::XOp(s)),
        ColBase::Advice => Lin::of(Tab::XAux),
        ColBase::Output => Lin::of(Tab::XOut),
        ColBase::Unit => Lin::constant(0),
    };
    let lo: i64 = fam_lo_exec(profile, f);
    let col = base.plus(1, Tab::Identity).plus(-1, Tab::XBase).shift(-lo);
    let mut comps: Vec<Lin> = Vec::new();
    comps.push(Lin::constant(family.matrix as i64));
    comps.push(row);
    comps.push(col);
    comps.push(Lin::constant(1));
    comps.push(Lin::of(Tab::XPow));
    let out = Block {
        log_len: profile.log_x(),
        num: Lin::of(fam_ind_exec(profile, f)),
        comps,
    };
    assert(out@.comps =~= family_block(profile@, f as int).comps);
    out
}

fn expansion_equality(profile: &RegistrationProfile, fams: &Vec<Family>) -> (out: Equality)
    requires
        profile_fits(profile@),
        at_hand(*fams),
    ensures
        out@ == eq_expansion(profile@),
{
    let ghost p = profile@;
    let mut left: Vec<Block> = Vec::new();
    left.push(masked_block_exec(profile, Tab::MaskA, 0));
    left.push(masked_block_exec(profile, Tab::MaskB, 1));
    left.push(masked_block_exec(profile, Tab::MaskC, 2));
    let mut comps: Vec<Lin> = Vec::new();
    comps.push(Lin::constant(1));
    comps.push(Lin::of(Tab::BRow));
    comps.push(Lin::of(Tab::BCol));
    comps.push(Lin::of(Tab::BVal));
    comps.push(Lin::of(Tab::BPow));
    assert(lin_views(comps@) =~= eq_expansion(p).left[3].comps);
    left.push(Block { log_len: profile.log_b_pre(), num: Lin::of(Tab::MaskPre), comps });
    assert(block_views(left@) =~= eq_expansion(p).left);
    let mut right: Vec<Block> = Vec::new();
    for f in 0..NUM_FAMILIES
        invariant
            p == profile@,
            profile_fits(p),
            at_hand(*fams),
            right.len() == f,
            forall|l: int| 0 <= l < f ==> (#[trigger] right[l])@ == family_block(p, l),
    {
        right.push(family_block_exec(profile, fams, f));
    }
    assert(block_views(right@) =~= eq_expansion(p).right);
    Equality { name: "linear-algebra rows are the expansion", left, right }
}

fn build_equalities(profile: &RegistrationProfile, fams: &Vec<Family>) -> (out: Vec<Equality>)
    requires
        profile_fits(profile@),
        at_hand(*fams),
    ensures
        equality_views(out@) == equalities_of(profile@),
{
    reveal(equalities_of);
    let ghost p = profile@;
    let mut out: Vec<Equality> = Vec::new();
    out.push(counters_equality(profile));
    out.push(rows_equality(profile));
    out.push(lookups_equality(profile));
    out.push(entries_equality(profile));
    out.push(lookup_entries_equality(profile));
    out.push(prefix_entries_equality(profile));
    out.push(ranges_equality(profile));
    out.push(products_equality(profile));
    out.push(outputs_equality(profile));
    out.push(types_equality(profile));
    for f in 0..NUM_FAMILIES
        invariant
            p == profile@,
            profile_fits(p),
            at_hand(*fams),
            out.len() == 10 + f,
            forall|l: int| 0 <= l < 10 + f ==> (#[trigger] out[l])@ == equalities_of(p)[l],
    {
        reveal(equalities_of);
        out.push(family_equality(profile, fams, f));
    }
    out.push(expansion_equality(profile, fams));
    assert(equality_views(out@) =~= equalities_of(p));
    out
}

/// All the rules for a profile.
pub fn build_rules(profile: &RegistrationProfile) -> (out: Rules)
    requires
        profile_fits(profile@),
    ensures
        out@ == rules_of(profile@),
{
    let fams = families();
    Rules {
        zero_checks: build_zero_checks(profile, &fams),
        equalities: build_equalities(profile, &fams),
    }
}

} // verus!
