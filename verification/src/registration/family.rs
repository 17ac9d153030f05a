//! The entries of the rows of a matrix product or a convolution.
//!
//! The rows of such an instruction are blocks of entries. A family describes one
//! block: a grid of coordinates, and for each point of the grid the row, the column
//! and the power of its entry, as formulas in the operands of the instruction and
//! the coordinates. The column is always a base plus the number of the point.
use vstd::prelude::*;
use crate::field::{Fr, values};
use crate::registration::encode::{NUM_OPERANDS, Opcode, numbers};
use crate::sumcheck::{Gate, gate_degree, gate_fits, gate_value, minus, plus, times, var};
use crate::sums::product_to;

verus! {

/// An expression in the operands of an instruction.
#[derive(Debug)]
pub enum Ex {
    Const(i64),
    Op(usize),
    Add(Box<Ex>, Box<Ex>),
    Sub(Box<Ex>, Box<Ex>),
    Mul(Box<Ex>, Box<Ex>),
}

/// The value of an expression.
pub open spec fn ex_value(e: Ex, o: Seq<int>) -> int
    decreases e,
{
    match e {
        Ex::Const(v) => v as int,
        Ex::Op(s) => o[s as int],
        Ex::Add(a, b) => ex_value(*a, o) + ex_value(*b, o),
        Ex::Sub(a, b) => ex_value(*a, o) - ex_value(*b, o),
        Ex::Mul(a, b) => ex_value(*a, o) * ex_value(*b, o),
    }
}

/// The expression reads no operand past `n`.
pub open spec fn ex_reads(e: Ex, n: nat) -> bool
    decreases e,
{
    match e {
        Ex::Const(v) => true,
        Ex::Op(s) => s < n,
        Ex::Add(a, b) => ex_reads(*a, n) && ex_reads(*b, n),
        Ex::Sub(a, b) => ex_reads(*a, n) && ex_reads(*b, n),
        Ex::Mul(a, b) => ex_reads(*a, n) && ex_reads(*b, n),
    }
}

/// The value of the expression, and of every part of it, is a word.
pub open spec fn ex_fits(e: Ex, o: Seq<int>) -> bool
    decreases e,
{
    &&& i64::MIN <= ex_value(e, o) <= i64::MAX
    &&& match e {
        Ex::Const(v) => true,
        Ex::Op(s) => s < o.len(),
        Ex::Add(a, b) => ex_fits(*a, o) && ex_fits(*b, o),
        Ex::Sub(a, b) => ex_fits(*a, o) && ex_fits(*b, o),
        Ex::Mul(a, b) => ex_fits(*a, o) && ex_fits(*b, o),
    }
}

/// The expression with operand `s` read from table `base + s`.
pub open spec fn ex_gate(e: Ex, base: int) -> Gate
    decreases e,
{
    match e {
        Ex::Const(v) => Gate::Constant(v),
        Ex::Op(s) => Gate::Var((base + s) as usize),
        Ex::Add(a, b) => Gate::Add(Box::new(ex_gate(*a, base)), Box::new(ex_gate(*b, base))),
        Ex::Sub(a, b) => Gate::Sub(Box::new(ex_gate(*a, base)), Box::new(ex_gate(*b, base))),
        Ex::Mul(a, b) => Gate::Mul(Box::new(ex_gate(*a, base)), Box::new(ex_gate(*b, base))),
    }
}

/// A constant.
pub fn c(value: i64) -> (out: Ex)
    ensures
        out == Ex::Const(value),
{
    Ex::Const(value)
}

/// An operand.
pub fn op(slot: usize) -> (out: Ex)
    ensures
        out == Ex::Op(slot),
{
    Ex::Op(slot)
}

/// A sum.
pub fn add(a: Ex, b: Ex) -> (out: Ex)
    ensures
        out == Ex::Add(Box::new(a), Box::new(b)),
{
    Ex::Add(Box::new(a), Box::new(b))
}

/// A difference.
pub fn sub(a: Ex, b: Ex) -> (out: Ex)
    ensures
        out == Ex::Sub(Box::new(a), Box::new(b)),
{
    Ex::Sub(Box::new(a), Box::new(b))
}

/// A product.
pub fn mul(a: Ex, b: Ex) -> (out: Ex)
    ensures
        out == Ex::Mul(Box::new(a), Box::new(b)),
{
    Ex::Mul(Box::new(a), Box::new(b))
}

impl Ex {
    /// The value of the expression, in integers.
    pub fn eval_i64(&self, ops: &[i64]) -> (out: i64)
        requires
            ex_fits(*self, numbers(ops@)),
        ensures
            out == ex_value(*self, numbers(ops@)),
        decreases self,
    {
        match self {
            Ex::Const(v) => *v,
            Ex::Op(slot) => ops[*slot],
            Ex::Add(a, b) => a.eval_i64(ops) + b.eval_i64(ops),
            Ex::Sub(a, b) => a.eval_i64(ops) - b.eval_i64(ops),
            Ex::Mul(a, b) => a.eval_i64(ops) * b.eval_i64(ops),
        }
    }

    /// The value of the expression, in the field.
    pub fn eval(&self, ops: &Vec<Fr>) -> (out: Fr)
        requires
            ex_reads(*self, ops.len() as nat),
        ensures
            out@ == ex_value(*self, values(ops@)),
        decreases self,
    {
        match self {
            Ex::Const(v) => Fr::from_i64(*v),
            Ex::Op(slot) => ops[*slot],
            Ex::Add(a, b) => a.eval(ops) + b.eval(ops),
            Ex::Sub(a, b) => a.eval(ops) - b.eval(ops),
            Ex::Mul(a, b) => a.eval(ops) * b.eval(ops),
        }
    }

    /// The expression with operand `s` read from table `base + s`.
    pub fn gate(&self, base: usize) -> (out: Gate)
        requires
            ex_reads(*self, NUM_OPERANDS as nat),
            base + NUM_OPERANDS <= usize::MAX,
        ensures
            out == ex_gate(*self, base as int),
        decreases self,
    {
        match self {
            Ex::Const(v) => Gate::Constant(*v),
            Ex::Op(slot) => var(base + *slot),
            Ex::Add(a, b) => plus(a.gate(base), b.gate(base)),
            Ex::Sub(a, b) => minus(a.gate(base), b.gate(base)),
            Ex::Mul(a, b) => times(a.gate(base), b.gate(base)),
        }
    }
}

/// The degree of an expression.
pub open spec fn ex_degree(e: Ex) -> nat
    decreases e,
{
    match e {
        Ex::Const(v) => 0,
        Ex::Op(s) => 1,
        Ex::Add(a, b) => if ex_degree(*a) >= ex_degree(*b) {
            ex_degree(*a)
        } else {
            ex_degree(*b)
        },
        Ex::Sub(a, b) => if ex_degree(*a) >= ex_degree(*b) {
            ex_degree(*a)
        } else {
            ex_degree(*b)
        },
        Ex::Mul(a, b) => ex_degree(*a) + ex_degree(*b),
    }
}

/// An expression read from tables has the value of the expression.
pub proof fn lemma_ex_gate(e: Ex, base: int, v: Seq<int>, coins: Seq<int>, vars: nat, m: nat)
    requires
        ex_reads(e, NUM_OPERANDS as nat),
        0 <= base,
        base + NUM_OPERANDS <= vars,
        vars <= usize::MAX,
    ensures
        gate_value(ex_gate(e, base), v, coins) == ex_value(
            e,
            Seq::new(NUM_OPERANDS as nat, |s: int| v[base + s]),
        ),
        gate_fits(ex_gate(e, base), vars, m),
        gate_degree(ex_gate(e, base)) == ex_degree(e),
    decreases e,
{
    match e {
        Ex::Add(a, b) => {
            lemma_ex_gate(*a, base, v, coins, vars, m);
            lemma_ex_gate(*b, base, v, coins, vars, m);
        },
        Ex::Sub(a, b) => {
            lemma_ex_gate(*a, base, v, coins, vars, m);
            lemma_ex_gate(*b, base, v, coins, vars, m);
        },
        Ex::Mul(a, b) => {
            lemma_ex_gate(*a, base, v, coins, vars, m);
            lemma_ex_gate(*b, base, v, coins, vars, m);
        },
        _ => {},
    }
}

/// Where the columns of a family start.
#[derive(Clone, Copy, Debug, PartialEq, Eq, Structural)]
pub enum ColBase {
    /// At an operand.
    Operand(usize),
    /// At the first advice cell.
    Advice,
    /// At the first output cell.
    Output,
    /// At the cell that holds one.
    Unit,
}

/// What a term of a power multiplies: a coordinate, or the number of the point.
#[derive(Clone, Copy, Debug, PartialEq, Eq, Structural)]
pub enum PowTerm {
    Digit(usize),
    Flat,
}

/// The row of an entry, from the first row of the instruction on.
#[derive(Clone, Copy, Debug, PartialEq, Eq, Structural)]
pub enum RowSpec {
    /// A coordinate.
    Digit(usize),
    /// An operand.
    Offset(usize),
}

/// What a family says.
pub ghost struct FamilyView {
    pub name: Seq<char>,
    pub opcode: Opcode,
    pub matrix: int,
    pub radices: Seq<Ex>,
    pub row: RowSpec,
    pub col_base: ColBase,
    pub pow: Seq<(Ex, PowTerm)>,
    pub pow_const: Ex,
}

/// A block of entries of an instruction.
#[derive(Debug)]
pub struct Family {
    pub name: &'static str,
    pub opcode: Opcode,
    /// The number of the matrix.
    pub matrix: usize,
    /// The sides of the grid, the outermost first.
    pub radices: Vec<Ex>,
    pub row: RowSpec,
    pub col_base: ColBase,
    /// The coefficients of the power and what they multiply.
    pub pow: Vec<(Ex, PowTerm)>,
    pub pow_const: Ex,
}

impl View for Family {
    type V = FamilyView;

    open spec fn view(&self) -> FamilyView {
        FamilyView {
            name: self.name@,
            opcode: self.opcode,
            matrix: self.matrix as int,
            radices: self.radices@,
            row: self.row,
            col_base: self.col_base,
            pow: self.pow@,
            pow_const: self.pow_const,
        }
    }
}

/// The product of the first `n` sides of the grid.
pub open spec fn grid_size(f: FamilyView, o: Seq<int>, n: int) -> int {
    product_to(n, |j: int| ex_value(f.radices[j], o))
}

/// The number of entries of a family.
pub open spec fn family_size(f: FamilyView, o: Seq<int>) -> int {
    grid_size(f, o, f.radices.len() as int)
}

/// The sides of the grid are words and so are the products of the first ones.
pub open spec fn family_fits(f: FamilyView, o: Seq<int>) -> bool {
    &&& forall|j: int|
        0 <= j < f.radices.len() ==> ex_fits(#[trigger] f.radices[j], o) && ex_value(
            f.radices[j],
            o,
        ) >= 0
    &&& forall|j: int|
        0 <= j <= f.radices.len() ==> 0 <= #[trigger] grid_size(f, o, j) <= i64::MAX
    &&& family_size(f, o) <= usize::MAX
}

impl Family {
    /// The number of coordinates.
    pub fn digits(&self) -> (out: usize)
        ensures
            out == self@.radices.len(),
    {
        self.radices.len()
    }

    /// The number of entries for an instruction with the given operands.
    pub fn size(&self, ops: &[i64]) -> (out: usize)
        requires
            family_fits(self@, numbers(ops@)),
        ensures
            out == family_size(self@, numbers(ops@)),
    {
        let ghost f = self@;
        let ghost o = numbers(ops@);
        let mut out: i64 = 1;
        for j in 0..self.radices.len()
            invariant
                f == self@,
                o == numbers(ops@),
                family_fits(f, o),
                out == grid_size(f, o, j as int),
        {
            assert(ex_fits(f.radices[j as int], o));
            assert(grid_size(f, o, j + 1) <= i64::MAX);
            out = out * self.radices[j].eval_i64(ops);
        }
        out as usize
    }
}

/// The greatest number of coordinates.
pub const MAX_DIGITS: usize = 4;

/// The number of families.
pub const NUM_FAMILIES: usize = 12;

/// The side of the output planes of a convolution.
pub open spec fn side_ex() -> Ex {
    Ex::Sub(
        Box::new(Ex::Add(Box::new(Ex::Op(2)), Box::new(Ex::Op(3)))),
        Box::new(Ex::Const(1)),
    )
}

fn side() -> (out: Ex)
    ensures
        out == side_ex(),
{
    self::sub(self::add(op(2), op(3)), c(1))
}

/// A family of one row per value of its first coordinate, or of a single row.
pub open spec fn family_of(
    name: Seq<char>,
    opcode: Opcode,
    matrix: int,
    radices: Seq<Ex>,
    row: RowSpec,
    col_base: ColBase,
    pow: Seq<(Ex, PowTerm)>,
    pow_const: Ex,
) -> FamilyView {
    FamilyView { name, opcode, matrix, radices, row, col_base, pow, pow_const }
}

/// The families of a matrix product.
pub open spec fn product_families() -> Seq<FamilyView> {
    let zero = Ex::Const(0);
    let one = Ex::Const(1);
    let none: Seq<(Ex, PowTerm)> = Seq::empty();
    seq![
        family_of(
            "matmult.x"@,
            Opcode::MatMult,
            0,
            seq![Ex::Op(1), Ex::Op(0)],
            RowSpec::Digit(0),
            ColBase::Operand(3),
            seq![(Ex::Op(2), PowTerm::Digit(1))],
            zero,
        ),
        family_of(
            "matmult.y"@,
            Opcode::MatMult,
            1,
            seq![Ex::Op(1), Ex::Op(2)],
            RowSpec::Digit(0),
            ColBase::Operand(4),
            seq![(one, PowTerm::Digit(1))],
            zero,
        ),
        family_of(
            "matmult.product"@,
            Opcode::MatMult,
            2,
            seq![Ex::Op(1)],
            RowSpec::Digit(0),
            ColBase::Advice,
            none,
            zero,
        ),
        family_of(
            "matmult.sum"@,
            Opcode::MatMult,
            0,
            seq![Ex::Op(1)],
            RowSpec::Offset(1),
            ColBase::Advice,
            none,
            zero,
        ),
        family_of(
            "matmult.unit"@,
            Opcode::MatMult,
            1,
            seq![one],
            RowSpec::Offset(1),
            ColBase::Unit,
            none,
            zero,
        ),
        family_of(
            "matmult.out"@,
            Opcode::MatMult,
            2,
            seq![Ex::Op(0), Ex::Op(2)],
            RowSpec::Offset(1),
            ColBase::Output,
            seq![(one, PowTerm::Flat)],
            zero,
        ),
    ]
}

/// The families of a convolution. The kernels are read backwards.
pub open spec fn convolution_families() -> Seq<FamilyView> {
    let zero = Ex::Const(0);
    let one = Ex::Const(1);
    let side = side_ex();
    let none: Seq<(Ex, PowTerm)> = Seq::empty();
    seq![
        family_of(
            "conv.input"@,
            Opcode::Conv,
            0,
            seq![Ex::Op(0), Ex::Op(2), Ex::Op(2)],
            RowSpec::Digit(0),
            ColBase::Operand(4),
            seq![(side, PowTerm::Digit(1)), (one, PowTerm::Digit(2))],
            zero,
        ),
        family_of(
            "conv.kernel"@,
            Opcode::Conv,
            1,
            seq![Ex::Op(0), Ex::Op(1), Ex::Op(3), Ex::Op(3)],
            RowSpec::Digit(0),
            ColBase::Operand(5),
            seq![
                (Ex::Mul(Box::new(side), Box::new(side)), PowTerm::Digit(1)),
                (Ex::Sub(Box::new(zero), Box::new(side)), PowTerm::Digit(2)),
                (Ex::Const((-1) as i64), PowTerm::Digit(3)),
            ],
            Ex::Mul(
                Box::new(Ex::Sub(Box::new(Ex::Op(3)), Box::new(one))),
                Box::new(Ex::Add(Box::new(side), Box::new(one))),
            ),
        ),
        family_of(
            "conv.product"@,
            Opcode::Conv,
            2,
            seq![Ex::Op(0)],
            RowSpec::Digit(0),
            ColBase::Advice,
            none,
            zero,
        ),
        family_of(
            "conv.sum"@,
            Opcode::Conv,
            0,
            seq![Ex::Op(0)],
            RowSpec::Offset(0),
            ColBase::Advice,
            none,
            zero,
        ),
        family_of(
            "conv.unit"@,
            Opcode::Conv,
            1,
            seq![one],
            RowSpec::Offset(0),
            ColBase::Unit,
            none,
            zero,
        ),
        family_of(
            "conv.out"@,
            Opcode::Conv,
            2,
            seq![Ex::Op(1), side, side],
            RowSpec::Offset(0),
            ColBase::Output,
            seq![(one, PowTerm::Flat)],
            zero,
        ),
    ]
}

/// All the families, in order.
pub open spec fn families_of() -> Seq<FamilyView> {
    product_families() + convolution_families()
}

/// The views of some families.
pub open spec fn family_views(v: Seq<Family>) -> Seq<FamilyView> {
    v.map_values(|f: Family| f@)
}

fn list1(a: Ex) -> (out: Vec<Ex>)
    ensures
        out@ == seq![a],
{
    let mut out: Vec<Ex> = Vec::new();
    out.push(a);
    assert(out@ =~= seq![a]);
    out
}

fn list2(a: Ex, b: Ex) -> (out: Vec<Ex>)
    ensures
        out@ == seq![a, b],
{
    let mut out = list1(a);
    out.push(b);
    assert(out@ =~= seq![a, b]);
    out
}

fn list3(a: Ex, b: Ex, d: Ex) -> (out: Vec<Ex>)
    ensures
        out@ == seq![a, b, d],
{
    let mut out = list2(a, b);
    out.push(d);
    assert(out@ =~= seq![a, b, d]);
    out
}

fn no_terms() -> (out: Vec<(Ex, PowTerm)>)
    ensures
        out@ == Seq::<(Ex, PowTerm)>::empty(),
{
    Vec::new()
}

fn one_term(a: Ex, t: PowTerm) -> (out: Vec<(Ex, PowTerm)>)
    ensures
        out@ == seq![(a, t)],
{
    let mut out: Vec<(Ex, PowTerm)> = Vec::new();
    out.push((a, t));
    assert(out@ =~= seq![(a, t)]);
    out
}

fn product_families_exec() -> (out: Vec<Family>)
    ensures
        family_views(out@) == product_families(),
        out.len() == 6,
{
    let mut out: Vec<Family> = Vec::new();
    out.push(
        Family {
            name: "matmult.x",
            opcode: Opcode::MatMult,
            matrix: 0,
            radices: list2(op(1), op(0)),
            row: RowSpec::Digit(0),
            col_base: ColBase::Operand(3),
            pow: one_term(op(2), PowTerm::Digit(1)),
            pow_const: c(0),
        },
    );
    out.push(
        Family {
            name: "matmult.y",
            opcode: Opcode::MatMult,
            matrix: 1,
            radices: list2(op(1), op(2)),
            row: RowSpec::Digit(0),
            col_base: ColBase::Operand(4),
            pow: one_term(c(1), PowTerm::Digit(1)),
            pow_const: c(0),
        },
    );
    out.push(
        Family {
            name: "matmult.product",
            opcode: Opcode::MatMult,
            matrix: 2,
            radices: list1(op(1)),
            row: RowSpec::Digit(0),
            col_base: ColBase::Advice,
            pow: no_terms(),
            pow_const: c(0),
        },
    );
    out.push(
        Family {
            name: "matmult.sum",
            opcode: Opcode::MatMult,
            matrix: 0,
            radices: list1(op(1)),
            row: RowSpec::Offset(1),
            col_base: ColBase::Advice,
            pow: no_terms(),
            pow_const: c(0),
        },
    );
    out.push(
        Family {
            name: "matmult.unit",
            opcode: Opcode::MatMult,
            matrix: 1,
            radices: list1(c(1)),
            row: RowSpec::Offset(1),
            col_base: ColBase::Unit,
            pow: no_terms(),
            pow_const: c(0),
        },
    );
    out.push(
        Family {
            name: "matmult.out",
            opcode: Opcode::MatMult,
            matrix: 2,
            radices: list2(op(0), op(2)),
            row: RowSpec::Offset(1),
            col_base: ColBase::Output,
            pow: one_term(c(1), PowTerm::Flat),
            pow_const: c(0),
        },
    );
    let ghost want = product_families();
    assert(out[0]@ == want[0]);
    assert(out[1]@ == want[1]);
    assert(out[2]@ == want[2]);
    assert(out[3]@ == want[3]);
    assert(out[4]@ == want[4]);
    assert(out[5]@ == want[5]);
    assert(family_views(out@) =~= want);
    out
}

fn convolution_families_exec() -> (out: Vec<Family>)
    ensures
        family_views(out@) == convolution_families(),
        out.len() == 6,
{
    let mut out: Vec<Family> = Vec::new();
    let mut input_pow = one_term(side(), PowTerm::Digit(1));
    input_pow.push((c(1), PowTerm::Digit(2)));
    out.push(
        Family {
            name: "conv.input",
            opcode: Opcode::Conv,
            matrix: 0,
            radices: list3(op(0), op(2), op(2)),
            row: RowSpec::Digit(0),
            col_base: ColBase::Operand(4),
            pow: input_pow,
            pow_const: c(0),
        },
    );
    let mut kernel_pow = one_term(self::mul(side(), side()), PowTerm::Digit(1));
    kernel_pow.push((self::sub(c(0), side()), PowTerm::Digit(2)));
    kernel_pow.push((c(-1), PowTerm::Digit(3)));
    let mut kernel_radices = list3(op(0), op(1), op(3));
    kernel_radices.push(op(3));
    out.push(
        Family {
            name: "conv.kernel",
            opcode: Opcode::Conv,
            matrix: 1,
            radices: kernel_radices,
            row: RowSpec::Digit(0),
            col_base: ColBase::Operand(5),
            pow: kernel_pow,
            pow_const: self::mul(self::sub(op(3), c(1)), self::add(side(), c(1))),
        },
    );
    out.push(
        Family {
            name: "conv.product",
            opcode: Opcode::Conv,
            matrix: 2,
            radices: list1(op(0)),
            row: RowSpec::Digit(0),
            col_base: ColBase::Advice,
            pow: no_terms(),
            pow_const: c(0),
        },
    );
    out.push(
        Family {
            name: "conv.sum",
            opcode: Opcode::Conv,
            matrix: 0,
            radices: list1(op(0)),
            row: RowSpec::Offset(0),
            col_base: ColBase::Advice,
            pow: no_terms(),
            pow_const: c(0),
        },
    );
    out.push(
        Family {
            name: "conv.unit",
            opcode: Opcode::Conv,
            matrix: 1,
            radices: list1(c(1)),
            row: RowSpec::Offset(0),
            col_base: ColBase::Unit,
            pow: no_terms(),
            pow_const: c(0),
        },
    );
    out.push(
        Family {
            name: "conv.out",
            opcode: Opcode::Conv,
            matrix: 2,
            radices: list3(op(1), side(), side()),
            row: RowSpec::Offset(0),
            col_base: ColBase::Output,
            pow: one_term(c(1), PowTerm::Flat),
            pow_const: c(0),
        },
    );
    let ghost want = convolution_families();
    assert(out[0]@.pow =~= want[0].pow);
    assert(out[0]@ == want[0]);
    assert(out[1]@.pow =~= want[1].pow);
    assert(out[1]@.radices =~= want[1].radices);
    assert(out[1]@ == want[1]);
    assert(out[2]@ == want[2]);
    assert(out[3]@ == want[3]);
    assert(out[4]@ == want[4]);
    assert(out[5]@ == want[5]);
    assert(family_views(out@) =~= want);
    out
}

/// All the families, in order.
pub fn families() -> (out: Vec<Family>)
    ensures
        family_views(out@) == families_of(),
        out.len() == NUM_FAMILIES,
{
    let mut out = product_families_exec();
    let mut rest = convolution_families_exec();
    let ghost a = out@;
    let ghost b = rest@;
    out.append(&mut rest);
    assert(family_views(out@) =~= family_views(a) + family_views(b));
    out
}

/// The families read no operand that there is not, and have no more coordinates
/// than there are.
pub open spec fn family_wf(f: FamilyView) -> bool {
    &&& 1 <= f.radices.len() <= MAX_DIGITS
    &&& forall|j: int|
        0 <= j < f.radices.len() ==> ex_reads(#[trigger] f.radices[j], NUM_OPERANDS as nat)
    &&& forall|j: int|
        0 <= j < f.pow.len() ==> ex_reads((#[trigger] f.pow[j]).0, NUM_OPERANDS as nat)
    &&& forall|j: int|
        0 <= j < f.pow.len() ==> ((#[trigger] f.pow[j]).1 matches PowTerm::Digit(d) ==> d
            < f.radices.len())
    &&& ex_reads(f.pow_const, NUM_OPERANDS as nat)
    &&& f.row matches RowSpec::Digit(d) ==> d < f.radices.len()
    &&& f.row matches RowSpec::Offset(d) ==> d < NUM_OPERANDS
    &&& f.col_base matches ColBase::Operand(d) ==> d < NUM_OPERANDS
    &&& 0 <= f.matrix < 3
}

/// The families are well formed.
pub proof fn lemma_families()
    ensures
        families_of().len() == NUM_FAMILIES,
        forall|f: int| 0 <= f < NUM_FAMILIES ==> family_wf(#[trigger] families_of()[f]),
{
    reveal_with_fuel(ex_reads, 5);
    let fams = families_of();
    let p = product_families();
    let v = convolution_families();
    assert(family_wf(p[0]) && family_wf(p[1]) && family_wf(p[2]) && family_wf(p[3]) && family_wf(
        p[4],
    ) && family_wf(p[5]));
    assert(family_wf(v[0]) && family_wf(v[1]) && family_wf(v[2]) && family_wf(v[3]) && family_wf(
        v[4],
    ) && family_wf(v[5]));
    assert forall|f: int| 0 <= f < NUM_FAMILIES implies family_wf(#[trigger] fams[f]) by {
        if f < 6 {
            assert(fams[f] == p[f]);
        } else {
            assert(fams[f] == v[f - 6]);
        }
    }
}

} // verus!
