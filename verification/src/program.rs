//! Programs over integer cells: their execution, and the witness of a run.
use vstd::prelude::*;
use vstd::arithmetic::div_mod::*;
use vstd::arithmetic::power::*;
use crate::circuit::LookupType;
use crate::field::{Fr, copied, values};
use crate::instruction::Instruction;
use crate::sums::{lemma_sum_zero, sum_to};

verus! {

/// A function on integers, tabulated on an interval and constant outside of it.
#[derive(Clone)]
pub struct LookupTable {
    min: i64,
    values: Vec<i64>,
}

impl LookupTable {
    /// The least tabulated argument.
    pub closed spec fn least(&self) -> int {
        self.min as int
    }

    /// The tabulated values.
    pub closed spec fn entries(&self) -> Seq<i64> {
        self.values@
    }

    /// There is a value, and the tabulated arguments are words.
    pub open spec fn usable(&self) -> bool {
        &&& 0 < self.entries().len() <= i64::MAX
        &&& self.least() + self.entries().len() <= i64::MAX
    }

    /// The value for an argument: that of the nearest tabulated one.
    pub open spec fn value_at(&self, input: int) -> int {
        let max = self.least() + self.entries().len() - 1;
        let clamped = if input < self.least() {
            self.least()
        } else if input > max {
            max
        } else {
            input
        };
        self.entries()[clamped - self.least()] as int
    }

    /// The table with the given values from `min` on.
    pub fn new(min: i64, values: Vec<i64>) -> (out: LookupTable)
        requires
            values.len() > 0,
        ensures
            out.least() == min,
            out.entries() == values@,
    {
        LookupTable { min, values }
    }

    /// The value for an argument.
    pub fn lookup(&self, input: i64) -> (out: i64)
        requires
            self.usable(),
        ensures
            out == self.value_at(input as int),
    {
        let max: i64 = self.min + self.values.len() as i64 - 1;
        let clamped: i64 = if input < self.min {
            self.min
        } else if input > max {
            max
        } else {
            input
        };
        let idx: usize = (clamped as i128 - self.min as i128) as usize;
        self.values[idx]
    }
}

/// A number is a signed word.
pub open spec fn fits(x: int) -> bool {
    i64::MIN <= x <= i64::MAX
}

/// The sum of the first `n` terms of a linear combination of cells.
pub open spec fn lin_value(row: Seq<(usize, i64)>, z: Seq<int>, n: int) -> int {
    sum_to(n, |k: int| z[row[k].0 as int] * row[k].1)
}

/// A linear combination reads cells that are there.
pub open spec fn lin_in_range(row: Seq<(usize, i64)>, len: int) -> bool {
    forall|k: int| 0 <= k < row.len() ==> (#[trigger] row[k]).0 < len
}

/// A linear combination reads cells that are there, and its terms and partial
/// sums are signed words.
pub open spec fn lin_ok(row: Seq<(usize, i64)>, z: Seq<int>) -> bool {
    &&& lin_in_range(row, z.len() as int)
    &&& forall|k: int| 0 <= k < row.len() ==> fits(z[(#[trigger] row[k]).0 as int] * row[k].1)
    &&& forall|n: int| 0 <= n <= row.len() ==> fits(#[trigger] lin_value(row, z, n))
}

/// The term `l` of the entry in row `i` and column `j` of a matrix product.
pub open spec fn mat_term(
    z: Seq<int>,
    m: int,
    k: int,
    s1: int,
    s2: int,
    i: int,
    j: int,
    l: int,
) -> int {
    z[s1 + l * m + i] * z[s2 + l * k + j]
}

/// The sum of the first `n` terms of an entry of a matrix product.
pub open spec fn mat_entry(
    z: Seq<int>,
    m: int,
    k: int,
    s1: int,
    s2: int,
    i: int,
    j: int,
    n: int,
) -> int {
    sum_to(n, |l: int| mat_term(z, m, k, s1, s2, i, j, l))
}

/// The term `t` of a cell of a cross-correlation: `t` runs over the channel and
/// the two kernel coordinates. Terms outside of the plane are zero.
pub open spec fn conv_term(
    z: Seq<int>,
    n: int,
    m: int,
    outs: int,
    s1: int,
    s2: int,
    o: int,
    alpha: int,
    beta: int,
    t: int,
) -> int {
    let ch = t / (m * m);
    let u = (t / m) % m;
    let v = t % m;
    let i = alpha - (m - 1) + u;
    let j = beta - (m - 1) + v;
    if 0 <= i < n && 0 <= j < n {
        z[s1 + ch * (n * n) + i * n + j] * z[s2 + (ch * outs + o) * (m * m) + u * m + v]
    } else {
        0
    }
}

/// The sum of the first `count` terms of a cell of a cross-correlation.
pub open spec fn conv_cell(
    z: Seq<int>,
    n: int,
    m: int,
    outs: int,
    s1: int,
    s2: int,
    o: int,
    alpha: int,
    beta: int,
    count: int,
) -> int {
    sum_to(count, |t: int| conv_term(z, n, m, outs, s1, s2, o, alpha, beta, t))
}

/// The index of the table for a type among the first `k`, or `-1`.
pub open spec fn find_table(tables: Seq<(LookupType, LookupTable)>, tp: LookupType, k: int) -> int
    decreases k,
{
    if k <= 0 {
        -1
    } else if find_table(tables, tp, k - 1) >= 0 {
        find_table(tables, tp, k - 1)
    } else if tables[k - 1].0 == tp {
        k - 1
    } else {
        -1
    }
}

/// The index of the table for a type, or `-1`.
pub open spec fn table_index(tables: Seq<(LookupType, LookupTable)>, tp: LookupType) -> int {
    find_table(tables, tp, tables.len() as int)
}

/// What a lookup of the given type gives.
pub open spec fn lookup_value(
    tables: Seq<(LookupType, LookupTable)>,
    tp: LookupType,
    x: int,
) -> int {
    match tp {
        LookupType::Relu => if x >= 0 {
            x
        } else {
            0
        },
        _ => tables[table_index(tables, tp)].1.value_at(x),
    }
}

/// A lookup of the given type can be executed.
pub open spec fn lookup_ok(tables: Seq<(LookupType, LookupTable)>, tp: LookupType) -> bool {
    match tp {
        LookupType::Relu => true,
        LookupType::Range(_) => false,
        _ => table_index(tables, tp) >= 0 && tables[table_index(tables, tp)].1.usable(),
    }
}

/// The cells that an instruction writes.
pub open spec fn instr_outputs(
    instr: Instruction,
    z: Seq<int>,
    tables: Seq<(LookupType, LookupTable)>,
) -> Seq<int> {
    match instr {
        Instruction::AddMult { input1, input2 } => seq![
            lin_value(input1@, z, input1.len() as int) * lin_value(
                input2@,
                z,
                input2.len() as int,
            ),
        ],
        Instruction::Conv { n, m, in_channels, out_channels, start1, start2 } => {
            let side = n + m - 1;
            let plane = side * side;
            Seq::new(
                (out_channels * plane) as nat,
                |t: int|
                    conv_cell(
                        z,
                        n as int,
                        m as int,
                        out_channels as int,
                        start1 as int,
                        start2 as int,
                        t / plane,
                        (t / side) % side,
                        t % side,
                        in_channels * (m * m),
                    ),
            )
        },
        Instruction::Lookup { input, tp } => seq![
            lookup_value(tables, tp, lin_value(input@, z, input.len() as int)),
        ],
        Instruction::Div { input1, input2, divisor } => seq![
            (lin_value(input1@, z, input1.len() as int) * lin_value(
                input2@,
                z,
                input2.len() as int,
            )) / (divisor as int),
        ],
        Instruction::MatMult { m, n, k, start1, start2 } => Seq::new(
            (m * k) as nat,
            |t: int|
                mat_entry(
                    z,
                    m as int,
                    k as int,
                    start1 as int,
                    start2 as int,
                    t / (k as int),
                    t % (k as int),
                    n as int,
                ),
        ),
    }
}

/// An instruction reads cells that are there, its tables are there, and all that
/// it computes are signed words.
pub open spec fn instr_ok(
    instr: Instruction,
    z: Seq<int>,
    tables: Seq<(LookupType, LookupTable)>,
) -> bool {
    match instr {
        Instruction::AddMult { input1, input2 } => {
            &&& lin_ok(input1@, z)
            &&& lin_ok(input2@, z)
            &&& fits(
                lin_value(input1@, z, input1.len() as int) * lin_value(
                    input2@,
                    z,
                    input2.len() as int,
                ),
            )
        },
        Instruction::Conv { n, m, in_channels, out_channels, start1, start2 } => {
            let side = n + m - 1;
            &&& instr.outputs_fit()
            &&& m * m <= usize::MAX
            &&& n * n <= usize::MAX
            &&& out_channels > 0 && in_channels > 0 && m > 0 && n > 0 ==> {
                &&& start1 + in_channels * (n * n) <= z.len()
                &&& start2 + (in_channels * out_channels) * (m * m) <= z.len()
            }
            &&& forall|o: int, alpha: int, beta: int, t: int|
                0 <= o < out_channels && 0 <= alpha < side && 0 <= beta < side && 0 <= t
                    < in_channels * (m * m) ==> fits(
                    #[trigger] conv_term(
                        z,
                        n as int,
                        m as int,
                        out_channels as int,
                        start1 as int,
                        start2 as int,
                        o,
                        alpha,
                        beta,
                        t,
                    ),
                )
            &&& forall|o: int, alpha: int, beta: int, t: int|
                0 <= o < out_channels && 0 <= alpha < side && 0 <= beta < side && 0 <= t
                    <= in_channels * (m * m) ==> fits(
                    #[trigger] conv_cell(
                        z,
                        n as int,
                        m as int,
                        out_channels as int,
                        start1 as int,
                        start2 as int,
                        o,
                        alpha,
                        beta,
                        t,
                    ),
                )
        },
        Instruction::Lookup { input, tp } => lin_ok(input@, z) && lookup_ok(tables, tp),
        Instruction::Div { input1, input2, divisor } => {
            &&& divisor > 0
            &&& lin_ok(input1@, z)
            &&& lin_ok(input2@, z)
            &&& fits(
                lin_value(input1@, z, input1.len() as int) * lin_value(
                    input2@,
                    z,
                    input2.len() as int,
                ),
            )
        },
        Instruction::MatMult { m, n, k, start1, start2 } => {
            &&& instr.outputs_fit()
            &&& m > 0 && n > 0 && k > 0 ==> start1 + n * m <= z.len() && start2 + n * k <= z.len()
            &&& forall|i: int, j: int, l: int|
                0 <= i < m && 0 <= j < k && 0 <= l < n ==> fits(
                    #[trigger] mat_term(
                        z,
                        m as int,
                        k as int,
                        start1 as int,
                        start2 as int,
                        i,
                        j,
                        l,
                    ),
                )
            &&& forall|i: int, j: int, l: int|
                0 <= i < m && 0 <= j < k && 0 <= l <= n ==> fits(
                    #[trigger] mat_entry(
                        z,
                        m as int,
                        k as int,
                        start1 as int,
                        start2 as int,
                        i,
                        j,
                        l,
                    ),
                )
        },
    }
}

/// The cells after the first `k` instructions.
pub open spec fn run(
    instrs: Seq<Instruction>,
    k: int,
    z: Seq<int>,
    tables: Seq<(LookupType, LookupTable)>,
) -> Seq<int>
    decreases k,
{
    if k <= 0 {
        z
    } else {
        let before = run(instrs, k - 1, z, tables);
        before + instr_outputs(instrs[k - 1], before, tables)
    }
}

/// All the instructions can be executed.
pub open spec fn runs(
    instrs: Seq<Instruction>,
    z: Seq<int>,
    tables: Seq<(LookupType, LookupTable)>,
) -> bool {
    forall|k: int|
        0 <= k < instrs.len() ==> instr_ok(#[trigger] instrs[k], run(instrs, k, z, tables), tables)
}

/// Signed words as integers.
pub open spec fn ints(v: Seq<i64>) -> Seq<int> {
    v.map_values(|x: i64| x as int)
}

/// The randomized row of an input plane.
pub open spec fn plane_value(z: Seq<int>, n: int, side: int, s1: int, ch: int, gamma: int) -> int {
    sum_to(
        n * n,
        |t: int| z[s1 + ch * (n * n) + t] * pow(gamma, ((t / n) * side + t % n) as nat),
    )
}

/// The power of the randomizer for the entry `t` of the kernels of a channel.
pub open spec fn kernel_pow(m: int, side: int, t: int) -> int {
    (t / (m * m)) * (side * side) + (m - 1 - (t / m) % m) * side + (m - 1 - t % m)
}

/// The randomized row of the kernels of a channel.
pub open spec fn kernel_value(
    z: Seq<int>,
    m: int,
    outs: int,
    side: int,
    s2: int,
    ch: int,
    gamma: int,
) -> int {
    sum_to(
        outs * (m * m),
        |t: int| z[s2 + ch * (outs * (m * m)) + t] * pow(gamma, kernel_pow(m, side, t) as nat),
    )
}

/// The randomized column of the first matrix.
pub open spec fn left_value(z: Seq<int>, m: int, k: int, s1: int, i: int, gamma: int) -> int {
    sum_to(m, |j: int| z[s1 + i * m + j] * pow(gamma, (j * k) as nat))
}

/// The randomized row of the second matrix.
pub open spec fn right_value(z: Seq<int>, k: int, s2: int, i: int, gamma: int) -> int {
    sum_to(k, |j: int| z[s2 + i * k + j] * pow(gamma, j as nat))
}

/// The advice cells of an instruction, whose outputs start at cell `out`.
pub open spec fn instr_advice(instr: Instruction, z: Seq<int>, out: int, gamma: int) -> Seq<int> {
    match instr {
        Instruction::AddMult { input1, input2 } => Seq::empty(),
        Instruction::Conv { n, m, in_channels, out_channels, start1, start2 } => Seq::new(
            in_channels as nat,
            |ch: int|
                plane_value(z, n as int, n + m - 1, start1 as int, ch, gamma) * kernel_value(
                    z,
                    m as int,
                    out_channels as int,
                    n + m - 1,
                    start2 as int,
                    ch,
                    gamma,
                ),
        ),
        Instruction::Lookup { input, tp } => Seq::empty(),
        Instruction::Div { input1, input2, divisor } => seq![
            lin_value(input1@, z, input1.len() as int) * lin_value(
                input2@,
                z,
                input2.len() as int,
            ) - divisor * z[out],
        ],
        Instruction::MatMult { m, n, k, start1, start2 } => Seq::new(
            n as nat,
            |i: int|
                left_value(z, m as int, k as int, start1 as int, i, gamma) * right_value(
                    z,
                    k as int,
                    start2 as int,
                    i,
                    gamma,
                ),
        ),
    }
}

/// An instruction's advice can be worked out from a trace.
pub open spec fn advice_ok(instr: Instruction, len: int, out: int) -> bool {
    match instr {
        Instruction::AddMult { input1, input2 } => true,
        Instruction::Conv { n, m, in_channels, out_channels, start1, start2 } => {
            &&& instr.outputs_fit()
            &&& (n + m - 1) * (n + m - 1) <= usize::MAX
            &&& n * n <= usize::MAX
            &&& m * m <= usize::MAX
            &&& in_channels > 0 && n > 0 ==> start1 + in_channels * (n * n) <= len
            &&& in_channels > 0 && out_channels > 0 && m > 0 ==> start2 + in_channels * (
            out_channels * (m * m)) <= len
        },
        Instruction::Lookup { input, tp } => true,
        Instruction::Div { input1, input2, divisor } => {
            &&& divisor > 0
            &&& lin_in_range(input1@, len)
            &&& lin_in_range(input2@, len)
            &&& out < len
        },
        Instruction::MatMult { m, n, k, start1, start2 } => {
            &&& instr.outputs_fit()
            &&& n > 0 && m > 0 ==> start1 + n * m <= len
            &&& n > 0 && k > 0 ==> start2 + n * k <= len
        },
    }
}

/// The cell where the outputs of instruction `k` start.
pub open spec fn out_at(instrs: Seq<Instruction>, start: int, k: int) -> int
    decreases k,
{
    if k <= 0 {
        start
    } else {
        out_at(instrs, start, k - 1) + instrs[k - 1].outputs()
    }
}

/// The advice cells of the first `k` instructions.
pub open spec fn advice(
    instrs: Seq<Instruction>,
    k: int,
    z: Seq<int>,
    start: int,
    gamma: int,
) -> Seq<int>
    decreases k,
{
    if k <= 0 {
        Seq::empty()
    } else {
        advice(instrs, k - 1, z, start, gamma) + instr_advice(
            instrs[k - 1],
            z,
            out_at(instrs, start, k - 1),
            gamma,
        )
    }
}

/// The advice of all the instructions can be worked out from a trace.
pub open spec fn advisable(instrs: Seq<Instruction>, start: int, len: int) -> bool {
    &&& forall|k: int|
        0 <= k < instrs.len() ==> advice_ok(#[trigger] instrs[k], len, out_at(instrs, start, k))
    &&& forall|k: int| 0 <= k <= instrs.len() ==> #[trigger] out_at(instrs, start, k) <= usize::MAX
}

/// No type has two tables.
pub open spec fn types_once(tables: Seq<(LookupType, LookupTable)>) -> bool {
    forall|i: int, j: int|
        0 <= i < tables.len() && 0 <= j < tables.len() && (#[trigger] tables[i]).0 == (
        #[trigger] tables[j]).0 ==> i == j
}

/// A program: instructions, parameters and tables, at most one of a type.
#[derive(Clone)]
pub struct Program {
    instructions: Vec<Instruction>,
    weights: Vec<i64>,
    lookup_tables: Vec<(LookupType, LookupTable)>,
}

fn find_table_exec(tables: &Vec<(LookupType, LookupTable)>, tp: LookupType) -> (out: Option<usize>)
    ensures
        out is Some <==> table_index(tables@, tp) >= 0,
        out is Some ==> out->0 == table_index(tables@, tp) && out->0 < tables.len(),
{
    let mut found: Option<usize> = None;
    for i in 0..tables.len()
        invariant
            found is Some <==> find_table(tables@, tp, i as int) >= 0,
            found is Some ==> found->0 == find_table(tables@, tp, i as int) && found->0 < i,
    {
        if found.is_none() && tables[i].0 == tp {
            found = Some(i);
        }
    }
    found
}

fn lin_exec(row: &Vec<(usize, i64)>, z: &Vec<i64>) -> (out: i64)
    requires
        lin_ok(row@, ints(z@)),
    ensures
        out == lin_value(row@, ints(z@), row.len() as int),
{
    let mut a: i64 = 0;
    let ghost zv = ints(z@);
    for k in 0..row.len()
        invariant
            zv == ints(z@),
            lin_ok(row@, zv),
            a == lin_value(row@, zv, k as int),
    {
        proof {
            assert(fits(zv[row@[k as int].0 as int] * row@[k as int].1));
            assert(fits(lin_value(row@, zv, k + 1)));
        }
        let x: i64 = z[row[k].0];
        let y: i64 = row[k].1;
        a = a + x * y;
    }
    a
}

/// The quotient rounded down.
fn floor_div(c: i64, d: i64) -> (out: i64)
    requires
        d > 0,
    ensures
        out == (c as int) / (d as int),
{
    if c >= 0 {
        ((c as u64) / (d as u64)) as i64
    } else {
        let m: u64 = (-(c + 1)) as u64;
        let q: u64 = m / (d as u64);
        proof {
            let cc = c as int;
            let dd = d as int;
            let qq = q as int;
            let rr = (m as int) % dd;
            lemma_fundamental_div_mod(m as int, dd);
            lemma_mod_bound(m as int, dd);
            assert(m as int == dd * qq + rr);
            assert(cc == dd * (-qq - 1) + (dd - 1 - rr)) by (nonlinear_arith)
                requires
                    -(cc + 1) == dd * qq + rr,
            ;
            lemma_fundamental_div_mod_converse(cc, dd, -qq - 1, dd - 1 - rr);
            lemma_div_is_ordered_by_denominator(m as int, 1, dd);
            lemma_div_basics(m as int);
        }
        -(q as i64) - 1
    }
}

fn mat_exec(
    z: &mut Vec<i64>,
    m: usize,
    n: usize,
    k: usize,
    s1: usize,
    s2: usize,
    tables: &Vec<(LookupType, LookupTable)>,
)
    requires
        instr_ok(
            (Instruction::MatMult { m, n, k, start1: s1, start2: s2 }),
            ints(old(z)@),
            tables@,
        ),
    ensures
        ints(final(z)@) == ints(old(z)@) + instr_outputs(
            (Instruction::MatMult { m, n, k, start1: s1, start2: s2 }),
            ints(old(z)@),
            tables@,
        ),
{
    let ghost instr = Instruction::MatMult { m, n, k, start1: s1, start2: s2 };
    let ghost zv = ints(z@);
    let ghost len0 = z@.len();
    let ghost want = instr_outputs(instr, zv, tables@);
    proof {
        assert(0 <= m * k) by (nonlinear_arith)
            requires
                m >= 0,
                k >= 0,
        ;
    }
    let total: usize = m * k;
    for t in 0..total
        invariant
            total == m * k,
            instr == (Instruction::MatMult { m, n, k, start1: s1, start2: s2 }),
            instr_ok(instr, zv, tables@),
            want == instr_outputs(instr, zv, tables@),
            want.len() == total,
            zv.len() == len0,
            z.len() == len0 + t,
            forall|i: int| 0 <= i < len0 ==> (#[trigger] z[i]) as int == zv[i],
            forall|i: int| len0 <= i < z.len() ==> (#[trigger] z[i]) as int == want[i - len0],
    {
        assert(k > 0 && m > 0) by (nonlinear_arith)
            requires
                t < m * k,
                m >= 0,
                k >= 0,
                t >= 0,
        ;
        let i: usize = t / k;
        let j: usize = t % k;
        assert(i < m) by {
            lemma_fundamental_div_mod(t as int, k as int);
            assert(i < m) by (nonlinear_arith)
                requires
                    t == k * i + j,
                    j >= 0,
                    t < m * k,
                    k > 0,
            ;
        }
        let mut v: i64 = 0;
        for l in 0..n
            invariant
                i < m,
                j < k,
                instr == (Instruction::MatMult { m, n, k, start1: s1, start2: s2 }),
                instr_ok(instr, zv, tables@),
                zv.len() == len0,
                z.len() >= len0,
                forall|i: int| 0 <= i < len0 ==> (#[trigger] z[i]) as int == zv[i],
                v == mat_entry(
                    zv,
                    m as int,
                    k as int,
                    s1 as int,
                    s2 as int,
                    i as int,
                    j as int,
                    l as int,
                ),
        {
            proof {
                assert(0 <= l * m && l * m + i < n * m) by (nonlinear_arith)
                    requires
                        0 <= l < n,
                        0 <= i < m,
                ;
                assert(0 <= l * k && l * k + j < n * k) by (nonlinear_arith)
                    requires
                        0 <= l < n,
                        0 <= j < k,
                ;
                assert(fits(
                    mat_term(
                        zv,
                        m as int,
                        k as int,
                        s1 as int,
                        s2 as int,
                        i as int,
                        j as int,
                        l as int,
                    ),
                ));
                assert(fits(
                    mat_entry(
                        zv,
                        m as int,
                        k as int,
                        s1 as int,
                        s2 as int,
                        i as int,
                        j as int,
                        l + 1,
                    ),
                ));
            }
            let x: i64 = z[s1 + l * m + i];
            let y: i64 = z[s2 + l * k + j];
            v = v + x * y;
        }
        z.push(v);
    }
    assert(ints(z@) =~= zv + want);
}

/// The number of terms of a cell is at most the number of entries of the kernels.
proof fn lemma_kernel_count(ins: int, outs: int, kernel: int)
    requires
        0 <= ins,
        0 < outs,
        0 <= kernel,
    ensures
        0 <= ins * kernel <= (ins * outs) * kernel,
        kernel == 0 || ins == 0 ==> ins * kernel == 0,
{
    assert(0 <= ins * kernel <= (ins * outs) * kernel) by (nonlinear_arith)
        requires
            0 <= ins,
            1 <= outs,
            0 <= kernel,
    ;
    assert(kernel == 0 || ins == 0 ==> ins * kernel == 0) by (nonlinear_arith);
}

fn conv_exec(
    z: &mut Vec<i64>,
    n: usize,
    m: usize,
    ins: usize,
    outs: usize,
    s1: usize,
    s2: usize,
    tables: &Vec<(LookupType, LookupTable)>,
)
    requires
        instr_ok(
            (Instruction::Conv {
                n,
                m,
                in_channels: ins,
                out_channels: outs,
                start1: s1,
                start2: s2,
            }),
            ints(old(z)@),
            tables@,
        ),
    ensures
        ints(final(z)@) == ints(old(z)@) + instr_outputs(
            (Instruction::Conv {
                n,
                m,
                in_channels: ins,
                out_channels: outs,
                start1: s1,
                start2: s2,
            }),
            ints(old(z)@),
            tables@,
        ),
{
    let ghost instr = Instruction::Conv {
        n,
        m,
        in_channels: ins,
        out_channels: outs,
        start1: s1,
        start2: s2,
    };
    let ghost zv = ints(z@);
    let ghost len0 = z@.len();
    let ghost want = instr_outputs(instr, zv, tables@);
    let side: usize = n + m - 1;
    proof {
        assert(0 <= outs * side && 0 <= (outs * side) * side && (outs * side) * side == outs * (side
            * side) && 0 <= side * side && 0 <= m * m && 0 <= n * n) by (nonlinear_arith)
            requires
                outs >= 0,
                side >= 0,
                m >= 0,
                n >= 0,
        ;
        assert(outs > 0 ==> side * side <= outs * (side * side)) by (nonlinear_arith)
            requires
                side >= 0,
        ;
        assert(0 <= ins * (m * m)) by (nonlinear_arith)
            requires
                ins >= 0,
                m * m >= 0,
        ;
    }
    if outs == 0 {
        assert(want =~= Seq::<int>::empty()) by {
            assert(0 * (side * side) == 0);
        }
        assert(zv + want =~= zv);
        return;
    }
    let plane: usize = side * side;
    let total: usize = outs * plane;
    let kernel: usize = m * m;
    let input_plane: usize = n * n;
    proof {
        lemma_kernel_count(ins as int, outs as int, kernel as int);
        assert(zv.len() == z.len());
        assert(0int * 0 == 0);
        if n == 0 {
            assert forall|o: int, alpha: int, beta: int| #[trigger]
                conv_cell(
                    zv,
                    0,
                    m as int,
                    outs as int,
                    s1 as int,
                    s2 as int,
                    o,
                    alpha,
                    beta,
                    ins * (m * m),
                ) == 0 by {
                lemma_sum_zero(
                    ins * (m * m),
                    |t: int|
                        conv_term(
                            zv,
                            0,
                            m as int,
                            outs as int,
                            s1 as int,
                            s2 as int,
                            o,
                            alpha,
                            beta,
                            t,
                        ),
                );
            }
        }
    }
    let count: usize = if n == 0 || m == 0 {
        0
    } else {
        ins * kernel
    };
    for c in 0..total
        invariant
            outs > 0,
            side == n + m - 1,
            plane == side * side,
            total == outs * plane,
            kernel == m * m,
            input_plane == n * n,
            n > 0 ==> count == ins * kernel,
            n == 0 ==> count == 0 && forall|o: int, alpha: int, beta: int| #[trigger]
                conv_cell(
                    zv,
                    0,
                    m as int,
                    outs as int,
                    s1 as int,
                    s2 as int,
                    o,
                    alpha,
                    beta,
                    ins * (m * m),
                ) == 0,
            instr == (Instruction::Conv {
                n,
                m,
                in_channels: ins,
                out_channels: outs,
                start1: s1,
                start2: s2,
            }),
            instr_ok(instr, zv, tables@),
            want == instr_outputs(instr, zv, tables@),
            want.len() == total,
            zv.len() == len0,
            z.len() == len0 + c,
            forall|i: int| 0 <= i < len0 ==> (#[trigger] z[i]) as int == zv[i],
            forall|i: int| len0 <= i < z.len() ==> (#[trigger] z[i]) as int == want[i - len0],
    {
        assert(side > 0 && plane > 0) by (nonlinear_arith)
            requires
                c < outs * plane,
                plane == side * side,
                c >= 0,
                outs > 0,
                side >= 0,
        ;
        let o: usize = c / plane;
        let alpha: usize = (c / side) % side;
        let beta: usize = c % side;
        assert(o < outs) by {
            lemma_fundamental_div_mod(c as int, plane as int);
            lemma_mod_bound(c as int, plane as int);
            assert(o < outs) by (nonlinear_arith)
                requires
                    c == plane * o + (c as int) % (plane as int),
                    0 <= (c as int) % (plane as int),
                    c < outs * plane,
                    plane > 0,
            ;
        }
        let mut acc: i64 = 0;
        for t in 0..count
            invariant
                o < outs,
                alpha < side,
                beta < side,
                side == n + m - 1,
                kernel == m * m,
                input_plane == n * n,
                n > 0 ==> count == ins * kernel,
                n == 0 ==> count == 0,
                instr == (Instruction::Conv {
                    n,
                    m,
                    in_channels: ins,
                    out_channels: outs,
                    start1: s1,
                    start2: s2,
                }),
                instr_ok(instr, zv, tables@),
                zv.len() == len0,
                z.len() >= len0,
                forall|i: int| 0 <= i < len0 ==> (#[trigger] z[i]) as int == zv[i],
                acc == conv_cell(
                    zv,
                    n as int,
                    m as int,
                    outs as int,
                    s1 as int,
                    s2 as int,
                    o as int,
                    alpha as int,
                    beta as int,
                    t as int,
                ),
        {
            assert(m > 0 && kernel > 0 && ins > 0) by (nonlinear_arith)
                requires
                    0 <= t < ins * kernel,
                    kernel == m * m,
                    m >= 0,
                    ins >= 0,
            ;
            let ch: usize = t / kernel;
            let u: usize = (t / m) % m;
            let v: usize = t % m;
            proof {
                assert(fits(
                    conv_term(
                        zv,
                        n as int,
                        m as int,
                        outs as int,
                        s1 as int,
                        s2 as int,
                        o as int,
                        alpha as int,
                        beta as int,
                        t as int,
                    ),
                ));
                assert(fits(
                    conv_cell(
                        zv,
                        n as int,
                        m as int,
                        outs as int,
                        s1 as int,
                        s2 as int,
                        o as int,
                        alpha as int,
                        beta as int,
                        t + 1,
                    ),
                ));
            }
            let du: usize = m - 1 - u;
            let dv: usize = m - 1 - v;
            if alpha >= du && alpha - du < n && beta >= dv && beta - dv < n {
                let i: usize = alpha - du;
                let j: usize = beta - dv;
                proof {
                    lemma_conv_indices(
                        t as int,
                        n as int,
                        m as int,
                        ins as int,
                        outs as int,
                        o as int,
                        i as int,
                        j as int,
                    );
                }
                assert(ch * outs + o <= (ch * outs + o) * kernel) by (nonlinear_arith)
                    requires
                        0 <= ch * outs + o,
                        kernel >= 1,
                ;
                let x: i64 = z[s1 + ch * input_plane + i * n + j];
                let y: i64 = z[s2 + (ch * outs + o) * kernel + u * m + v];
                acc = acc + x * y;
            }
        }
        z.push(acc);
    }
    assert(ints(z@) =~= zv + want);
}

/// The cells that a term of a cross-correlation reads are in the blocks of planes
/// and kernels.
proof fn lemma_conv_indices(
    t: int,
    n: int,
    m: int,
    ins: int,
    outs: int,
    o: int,
    i: int,
    j: int,
)
    requires
        0 <= t < ins * (m * m),
        m > 0,
        n > 0,
        0 <= o < outs,
        0 <= i < n,
        0 <= j < n,
    ensures
        ({
            let ch = t / (m * m);
            let u = (t / m) % m;
            let v = t % m;
            &&& 0 <= ch < ins
            &&& 0 <= u < m
            &&& 0 <= v < m
            &&& 0 <= ch * (n * n) <= ch * (n * n) + i * n <= ch * (n * n) + i * n + j < ins * (n
                * n)
            &&& 0 <= ch * outs <= ch * outs + o < ins * outs
            &&& 0 <= (ch * outs + o) * (m * m) <= (ch * outs + o) * (m * m) + u * m
                <= (ch * outs + o) * (m * m) + u * m + v < (ins * outs) * (m * m)
            &&& 0 <= i * n
            &&& 0 <= u * m
        }),
{
    let k = m * m;
    assert(k > 0) by (nonlinear_arith)
        requires
            k == m * m,
            m > 0,
    ;
    let ch = t / k;
    let u = (t / m) % m;
    let v = t % m;
    lemma_fundamental_div_mod(t, k);
    lemma_mod_bound(t, k);
    lemma_mod_bound(t / m, m);
    lemma_mod_bound(t, m);
    let r = t % k;
    assert(0 <= ch < ins) by (nonlinear_arith)
        requires
            t == k * ch + r,
            0 <= r < k,
            0 <= t < ins * k,
    ;
    assert(i * n + j < n * n && 0 <= i * n) by (nonlinear_arith)
        requires
            0 <= i < n,
            0 <= j < n,
    ;
    let p = n * n;
    assert(ch * p + p <= ins * p && 0 <= ch * p) by (nonlinear_arith)
        requires
            0 <= ch,
            ch + 1 <= ins,
            p == n * n,
            n > 0,
    ;
    assert(ch * outs + o < ins * outs && 0 <= ch * outs) by (nonlinear_arith)
        requires
            0 <= ch,
            ch + 1 <= ins,
            0 <= o < outs,
    ;
    assert(u * m + v < m * m && 0 <= u * m) by (nonlinear_arith)
        requires
            0 <= u < m,
            0 <= v < m,
    ;
    let c = ch * outs + o;
    assert(c * k + k <= (ins * outs) * k && 0 <= c * k) by (nonlinear_arith)
        requires
            0 <= c,
            c + 1 <= ins * outs,
            k > 0,
    ;
}

impl Program {
    /// No type has two tables.
    pub open spec fn well_formed(&self) -> bool {
        types_once(self.tables())
    }

    /// The instructions.
    pub closed spec fn code(&self) -> Seq<Instruction> {
        self.instructions@
    }

    /// The parameters.
    pub closed spec fn params(&self) -> Seq<i64> {
        self.weights@
    }

    /// The tables.
    pub closed spec fn tables(&self) -> Seq<(LookupType, LookupTable)> {
        self.lookup_tables@
    }

    /// A program without tables.
    pub fn new(instructions: Vec<Instruction>, weights: Vec<i64>) -> (out: Program)
        ensures
            out.code() == instructions@,
            out.params() == weights@,
            out.tables() == Seq::<(LookupType, LookupTable)>::empty(),
            out.well_formed(),
    {
        Program { instructions, weights, lookup_tables: Vec::new() }
    }

    /// A program with tables.
    pub fn new_with_lookup_tables(
        instructions: Vec<Instruction>,
        weights: Vec<i64>,
        lookup_tables: Vec<(LookupType, LookupTable)>,
    ) -> (out: Program)
        requires
            types_once(lookup_tables@),
        ensures
            out.code() == instructions@,
            out.params() == weights@,
            out.tables() == lookup_tables@,
            out.well_formed(),
    {
        Program { instructions, weights, lookup_tables }
    }

    /// The instructions.
    pub fn instructions(&self) -> (out: &Vec<Instruction>)
        ensures
            out@ == self.code(),
    {
        &self.instructions
    }

    /// The number of parameters.
    pub fn weight_len(&self) -> (out: usize)
        ensures
            out == self.params().len(),
    {
        self.weights.len()
    }

    /// The parameters as field elements.
    pub fn weights(&self) -> (out: Vec<Fr>)
        ensures
            values(out@) == ints(self.params()),
    {
        to_fields(&self.weights)
    }

    /// Executes the program, and gives the whole trace: the parameters, the input
    /// and what the instructions wrote.
    pub fn execute_i64(&self, input: &Vec<i64>) -> (out: Vec<i64>)
        requires
            runs(self.code(), ints(self.params() + input@), self.tables()),
        ensures
            ints(out@) == run(
                self.code(),
                self.code().len() as int,
                ints(self.params() + input@),
                self.tables(),
            ),
    {
        let mut z: Vec<i64> = Vec::new();
        for i in 0..self.weights.len()
            invariant
                z@ == self.weights@.take(i as int),
        {
            z.push(self.weights[i]);
            assert(self.weights@.take(i + 1) =~= self.weights@.take(i as int).push(
                self.weights[i as int],
            ));
        }
        assert(self.weights@.take(self.weights.len() as int) =~= self.weights@);
        for i in 0..input.len()
            invariant
                z@ == self.weights@ + input@.take(i as int),
        {
            z.push(input[i]);
            assert(self.weights@ + input@.take(i + 1) =~= (self.weights@ + input@.take(
                i as int,
            )).push(input[i as int]));
        }
        assert(input@.take(input.len() as int) =~= input@);
        let ghost start = ints(self.params() + input@);
        let ghost code = self.code();
        let tables = &self.lookup_tables;
        for k in 0..self.instructions.len()
            invariant
                code == self.code(),
                code == self.instructions@,
                tables@ == self.tables(),
                runs(code, start, tables@),
                ints(z@) == run(code, k as int, start, tables@),
        {
            let ghost zv = ints(z@);
            let ghost before = z@;
            assert(instr_ok(code[k as int], zv, tables@));
            match &self.instructions[k] {
                Instruction::AddMult { input1, input2 } => {
                    let a: i64 = lin_exec(input1, &z);
                    let b: i64 = lin_exec(input2, &z);
                    z.push(a * b);
                    assert(ints(z@) =~= zv + instr_outputs(code[k as int], zv, tables@));
                },
                Instruction::Conv { n, m, in_channels, out_channels, start1, start2 } => {
                    conv_exec(
                        &mut z,
                        *n,
                        *m,
                        *in_channels,
                        *out_channels,
                        *start1,
                        *start2,
                        tables,
                    );
                },
                Instruction::Lookup { input, tp } => {
                    let a: i64 = lin_exec(input, &z);
                    let v: i64 = match tp {
                        LookupType::Relu => if a >= 0 {
                            a
                        } else {
                            0
                        },
                        _ => {
                            let i: usize = find_table_exec(tables, *tp).unwrap();
                            tables[i].1.lookup(a)
                        },
                    };
                    z.push(v);
                    assert(ints(z@) =~= zv + instr_outputs(code[k as int], zv, tables@));
                },
                Instruction::Div { input1, input2, divisor } => {
                    let a: i64 = lin_exec(input1, &z);
                    let b: i64 = lin_exec(input2, &z);
                    let v: i64 = floor_div(a * b, *divisor);
                    z.push(v);
                    assert(ints(z@) =~= zv + instr_outputs(code[k as int], zv, tables@));
                },
                Instruction::MatMult { m, n, k, start1, start2 } => {
                    mat_exec(&mut z, *m, *n, *k, *start1, *start2, tables);
                },
            }
        }
        z
    }

    /// Executes the program, with the trace as field elements.
    pub fn execute(&self, input: &Vec<i64>) -> (out: Vec<Fr>)
        requires
            runs(self.code(), ints(self.params() + input@), self.tables()),
        ensures
            values(out@) == run(
                self.code(),
                self.code().len() as int,
                ints(self.params() + input@),
                self.tables(),
            ),
    {
        let z = self.execute_i64(input);
        to_fields(&z)
    }

    /// Appends to a trace the advice cells of the instructions, whose outputs start
    /// at cell `output_start`.
    pub fn gen_z(&self, output_start: usize, trace: &Vec<Fr>, gamma: Fr) -> (out: Vec<Fr>)
        requires
            advisable(self.code(), output_start as int, trace.len() as int),
        ensures
            values(out@) == values(trace@) + advice(
                self.code(),
                self.code().len() as int,
                values(trace@),
                output_start as int,
                gamma@,
            ),
    {
        let mut z = copied(trace);
        let ghost code = self.code();
        let ghost tv = values(trace@);
        let ghost start = output_start as int;
        let mut output_index: usize = output_start;
        assert(values(z@) =~= tv + advice(code, 0, tv, start, gamma@));
        for k in 0..self.instructions.len()
            invariant
                code == self.code(),
                code == self.instructions@,
                tv == values(trace@),
                start == output_start,
                advisable(code, start, trace.len() as int),
                output_index == out_at(code, start, k as int),
                values(z@) == tv + advice(code, k as int, tv, start, gamma@),
        {
            let ghost instr = code[k as int];
            let ghost adv = instr_advice(instr, tv, output_index as int, gamma@);
            let ghost before = z@;
            proof {
                assert(advice_ok(instr, trace.len() as int, output_index as int));
                assert(out_at(code, start, k + 1) <= usize::MAX);
            }
            advise(&self.instructions[k], trace, output_index, gamma, &mut z);
            assert(values(z@) =~= values(before) + adv);
            assert(values(z@) =~= tv + advice(code, k + 1, tv, start, gamma@));
            proof {
                match instr {
                    Instruction::Conv { .. } => {},
                    Instruction::MatMult { .. } => {},
                    _ => {},
                }
            }
            output_index = output_index + self.instructions[k].output_len();
        }
        z
    }
}

/// Signed words as field elements.
pub fn to_fields(v: &Vec<i64>) -> (out: Vec<Fr>)
    ensures
        values(out@) == ints(v@),
        out.len() == v.len(),
{
    let mut out: Vec<Fr> = Vec::new();
    for i in 0..v.len()
        invariant
            out.len() == i,
            forall|j: int| 0 <= j < i ==> (#[trigger] out[j])@ == v[j],
    {
        out.push(Fr::from_i64(v[i]));
    }
    assert(values(out@) =~= ints(v@));
    out
}

fn lin_fields(row: &Vec<(usize, i64)>, z: &Vec<Fr>) -> (out: Fr)
    requires
        lin_in_range(row@, z.len() as int),
    ensures
        out@ == lin_value(row@, values(z@), row.len() as int),
{
    let mut a = Fr::zero();
    let ghost zv = values(z@);
    for k in 0..row.len()
        invariant
            zv == values(z@),
            lin_in_range(row@, z.len() as int),
            a@ == lin_value(row@, zv, k as int),
    {
        assert(row@[k as int].0 < z.len());
        a = a + z[row[k].0] * Fr::from_i64(row[k].1);
    }
    a
}

/// Appends the advice cells of an instruction.
fn advise(instr: &Instruction, trace: &Vec<Fr>, out: usize, gamma: Fr, z: &mut Vec<Fr>)
    requires
        advice_ok(*instr, trace.len() as int, out as int),
    ensures
        values(final(z)@) == values(old(z)@) + instr_advice(
            *instr,
            values(trace@),
            out as int,
            gamma@,
        ),
{
    let ghost tv = values(trace@);
    let ghost start = values(z@);
    let ghost want = instr_advice(*instr, tv, out as int, gamma@);
    match instr {
        Instruction::AddMult { input1: _, input2: _ } => {
            assert(start + want =~= start);
        },
        Instruction::Conv { n, m, in_channels, out_channels, start1, start2 } => {
            let ghost side = *n + *m - 1;
            for ch in 0..*in_channels
                invariant
                    tv == values(trace@),
                    advice_ok(*instr, trace.len() as int, out as int),
                    *instr == (Instruction::Conv {
                        n: *n,
                        m: *m,
                        in_channels: *in_channels,
                        out_channels: *out_channels,
                        start1: *start1,
                        start2: *start2,
                    }),
                    want == instr_advice(*instr, tv, out as int, gamma@),
                    values(z@) == start + want.take(ch as int),
            {
                let a = plane_exec(trace, *n, *m, *in_channels, *start1, ch, gamma);
                let b = kernel_exec(trace, *n, *m, *in_channels, *out_channels, *start2, ch, gamma);
                let ghost before = values(z@);
                z.push(a * b);
                assert(values(z@) =~= before.push(want[ch as int]));
                assert(values(z@) =~= start + want.take(ch + 1));
            }
            assert(want.take(*in_channels as int) =~= want);
        },
        Instruction::Lookup { input: _, tp: _ } => {
            assert(start + want =~= start);
        },
        Instruction::Div { input1, input2, divisor } => {
            let a = lin_fields(input1, trace);
            let b = lin_fields(input2, trace);
            let r = a * b - Fr::from_i64(*divisor) * trace[out];
            z.push(r);
            assert(values(z@) =~= start + want);
        },
        Instruction::MatMult { m, n, k, start1, start2 } => {
            for i in 0..*n
                invariant
                    tv == values(trace@),
                    advice_ok(*instr, trace.len() as int, out as int),
                    *instr == (Instruction::MatMult {
                        m: *m,
                        n: *n,
                        k: *k,
                        start1: *start1,
                        start2: *start2,
                    }),
                    want == instr_advice(*instr, tv, out as int, gamma@),
                    values(z@) == start + want.take(i as int),
            {
                let a = left_exec(trace, *m, *n, *k, *start1, i, gamma);
                let b = right_exec(trace, *n, *k, *start2, i, gamma);
                let ghost before = values(z@);
                z.push(a * b);
                assert(values(z@) =~= before.push(want[i as int]));
                assert(values(z@) =~= start + want.take(i + 1));
            }
            assert(want.take(*n as int) =~= want);
        },
    }
}

fn plane_exec(
    trace: &Vec<Fr>,
    n: usize,
    m: usize,
    ins: usize,
    s1: usize,
    ch: usize,
    gamma: Fr,
) -> (out: Fr)
    requires
        n * n <= usize::MAX,
        n + m <= usize::MAX,
        n + m >= 1,
        (n + m - 1) * (n + m - 1) <= usize::MAX,
        ch < ins,
        n > 0 ==> s1 + ins * (n * n) <= trace.len(),
    ensures
        out@ == plane_value(values(trace@), n as int, n + m - 1, s1 as int, ch as int, gamma@),
{
    let ghost tv = values(trace@);
    let side: usize = n + m - 1;
    assert(0 <= n * n) by (nonlinear_arith)
        requires
            n >= 0,
    ;
    let area: usize = n * n;
    if n == 0 {
        return Fr::zero();
    }
    assert(0 <= ch * area && ch * area + area <= ins * area) by (nonlinear_arith)
        requires
            0 <= ch,
            ch + 1 <= ins,
            area >= 0,
    ;
    let base: usize = s1 + ch * area;
    let mut a = Fr::zero();
    for t in 0..area
        invariant
            tv == values(trace@),
            side == n + m - 1,
            area == n * n,
            base == s1 + ch * area,
            base + area <= trace.len(),
            side * side <= usize::MAX,
            n * n <= usize::MAX,
            a@ == sum_to(
                t as int,
                |t: int|
                    tv[s1 + ch * (n * n) + t] * pow(
                        gamma@,
                        ((t / n as int) * side + t % n as int) as nat,
                    ),
            ),
    {
        assert(n > 0) by (nonlinear_arith)
            requires
                0 <= t < n * n,
                n >= 0,
        ;
        let i: usize = t / n;
        let j: usize = t % n;
        proof {
            lemma_fundamental_div_mod(t as int, n as int);
            assert(i < n) by (nonlinear_arith)
                requires
                    t == n * i + j,
                    j >= 0,
                    t < n * n,
                    n > 0,
            ;
            lemma_pow_bound(n as int, m as int, side as int, i as int, j as int);
        }
        let e: u64 = (i * side + j) as u64;
        a = a + trace[base + t] * gamma.pow(e);
    }
    a
}

/// The powers of an input plane are words.
pub proof fn lemma_pow_bound(n: int, m: int, side: int, i: int, j: int)
    requires
        side == n + m - 1,
        m >= 0,
        0 <= i < n,
        0 <= j < n,
    ensures
        0 <= i * side,
        i * side + j <= side * side || i * side + j <= n * n,
{
    assert(0 <= i * side) by (nonlinear_arith)
        requires
            0 <= i,
            0 <= side,
    ;
    if m >= 1 {
        assert(i * side + side <= side * side) by (nonlinear_arith)
            requires
                i + 1 <= side,
                side >= 0,
        ;
    } else {
        assert(i * side + j <= n * n) by (nonlinear_arith)
            requires
                0 <= i < n,
                0 <= j < n,
                side == n - 1,
        ;
    }
}

/// The powers of the kernels of a channel are words.
pub proof fn lemma_kernel_pow_bound(n: int, m: int, outs: int, side: int, t: int)
    requires
        side == n + m - 1,
        n >= 0,
        m > 0,
        0 <= t < outs * (m * m),
    ensures
        0 <= t / (m * m) < outs,
        0 <= (t / m) % m < m,
        0 <= t % m < m,
        0 <= (t / (m * m)) * (side * side),
        0 <= (m - 1 - (t / m) % m) * side,
        0 <= kernel_pow(m, side, t),
        kernel_pow(m, side, t) < outs * (side * side) || kernel_pow(m, side, t) <= outs * (m * m),
{
    let k = m * m;
    assert(k > 0) by (nonlinear_arith)
        requires
            k == m * m,
            m > 0,
    ;
    lemma_fundamental_div_mod(t, k);
    lemma_mod_bound(t, k);
    lemma_mod_bound(t / m, m);
    lemma_mod_bound(t, m);
    let o = t / k;
    let r = t % k;
    assert(0 <= o < outs) by (nonlinear_arith)
        requires
            t == k * o + r,
            0 <= r < k,
            0 <= t < outs * k,
    ;
    let p = side * side;
    let u = m - 1 - (t / m) % m;
    let v = m - 1 - t % m;
    assert(0 <= o * p && 0 <= u * side) by (nonlinear_arith)
        requires
            0 <= o,
            0 <= u,
            0 <= side,
            p == side * side,
    ;
    if n >= 1 {
        assert(u * side + side <= p) by (nonlinear_arith)
            requires
                u + 1 <= side,
                p == side * side,
                side >= 0,
        ;
        assert(o * p + p <= outs * p) by (nonlinear_arith)
            requires
                o + 1 <= outs,
                p >= 0,
        ;
        assert(p >= 0) by (nonlinear_arith)
            requires
                p == side * side,
        ;
    } else {
        assert(p <= k && u * side + v <= k) by (nonlinear_arith)
            requires
                side == m - 1,
                p == side * side,
                k == m * m,
                0 <= u <= m - 1,
                0 <= v <= m - 1,
                m > 0,
        ;
        assert(o * p + k <= outs * k) by (nonlinear_arith)
            requires
                o + 1 <= outs,
                0 <= o,
                p <= k,
                k > 0,
        ;
    }
}

fn kernel_exec(
    trace: &Vec<Fr>,
    n: usize,
    m: usize,
    ins: usize,
    outs: usize,
    s2: usize,
    ch: usize,
    gamma: Fr,
) -> (out: Fr)
    requires
        n + m <= usize::MAX,
        n + m >= 1,
        (n + m - 1) * (n + m - 1) <= usize::MAX,
        outs * (n + m - 1) * (n + m - 1) <= usize::MAX,
        m * m <= usize::MAX,
        ch < ins,
        outs > 0 && m > 0 ==> s2 + ins * (outs * (m * m)) <= trace.len(),
    ensures
        out@ == kernel_value(
            values(trace@),
            m as int,
            outs as int,
            n + m - 1,
            s2 as int,
            ch as int,
            gamma@,
        ),
{
    let ghost tv = values(trace@);
    let side: usize = n + m - 1;
    assert(0 <= m * m && 0 <= side * side) by (nonlinear_arith)
        requires
            m >= 0,
            side >= 0,
    ;
    let plane: usize = side * side;
    let kernel: usize = m * m;
    assert(0 <= outs * kernel) by (nonlinear_arith)
        requires
            outs >= 0,
            kernel >= 0,
    ;
    if outs == 0 || m == 0 {
        assert(outs * kernel == 0) by (nonlinear_arith)
            requires
                outs == 0 || kernel == 0,
        ;
        return Fr::zero();
    }
    assert(outs * kernel <= ins * (outs * kernel)) by (nonlinear_arith)
        requires
            0 <= outs * kernel,
            1 <= ins,
    ;
    let block: usize = outs * kernel;
    assert(0 <= ch * block && ch * block + block <= ins * block) by (nonlinear_arith)
        requires
            0 <= ch,
            ch + 1 <= ins,
            block >= 0,
    ;
    assert(outs * plane <= usize::MAX) by (nonlinear_arith)
        requires
            outs * side * side <= usize::MAX,
            plane == side * side,
    ;
    let base: usize = s2 + ch * block;
    let mut b = Fr::zero();
    for t in 0..block
        invariant
            tv == values(trace@),
            side == n + m - 1,
            plane == side * side,
            kernel == m * m,
            block == outs * kernel,
            block <= usize::MAX,
            outs * plane <= usize::MAX,
            base == s2 + ch * block,
            base + block <= trace.len(),
            b@ == sum_to(
                t as int,
                |t: int|
                    tv[s2 + ch * (outs * (m * m)) + t] * pow(
                        gamma@,
                        kernel_pow(m as int, side as int, t) as nat,
                    ),
            ),
    {
        assert(m > 0) by (nonlinear_arith)
            requires
                0 <= t < outs * kernel,
                kernel == m * m,
                m >= 0,
        ;
        proof {
            lemma_kernel_pow_bound(n as int, m as int, outs as int, side as int, t as int);
            assert(kernel > 0) by (nonlinear_arith)
                requires
                    kernel == m * m,
                    m > 0,
            ;
        }
        let o: usize = t / kernel;
        let u: usize = (t / m) % m;
        let v: usize = t % m;
        let e: u64 = (o * plane + (m - 1 - u) * side + (m - 1 - v)) as u64;
        b = b + trace[base + t] * gamma.pow(e);
    }
    b
}

fn left_exec(
    trace: &Vec<Fr>,
    m: usize,
    n: usize,
    k: usize,
    s1: usize,
    i: usize,
    gamma: Fr,
) -> (out: Fr)
    requires
        m * k <= usize::MAX,
        i < n,
        m > 0 ==> s1 + n * m <= trace.len(),
    ensures
        out@ == left_value(values(trace@), m as int, k as int, s1 as int, i as int, gamma@),
{
    let ghost tv = values(trace@);
    assert(0 <= i * m && i * m + m <= n * m) by (nonlinear_arith)
        requires
            0 <= i,
            i + 1 <= n,
            m >= 0,
    ;
    if m == 0 {
        return Fr::zero();
    }
    let base: usize = s1 + i * m;
    let mut a = Fr::zero();
    for j in 0..m
        invariant
            tv == values(trace@),
            m * k <= usize::MAX,
            base == s1 + i * m,
            base + m <= trace.len(),
            a@ == sum_to(
                j as int,
                |j: int| tv[s1 + i * m + j] * pow(gamma@, (j * k) as nat),
            ),
    {
        assert(0 <= j * k <= m * k) by (nonlinear_arith)
            requires
                0 <= j < m,
                k >= 0,
        ;
        let e: u64 = (j * k) as u64;
        a = a + trace[base + j] * gamma.pow(e);
    }
    a
}

fn right_exec(trace: &Vec<Fr>, n: usize, k: usize, s2: usize, i: usize, gamma: Fr) -> (out: Fr)
    requires
        i < n,
        k > 0 ==> s2 + n * k <= trace.len(),
    ensures
        out@ == right_value(values(trace@), k as int, s2 as int, i as int, gamma@),
{
    let ghost tv = values(trace@);
    assert(0 <= i * k && i * k + k <= n * k) by (nonlinear_arith)
        requires
            0 <= i,
            i + 1 <= n,
            k >= 0,
    ;
    if k == 0 {
        return Fr::zero();
    }
    let base: usize = s2 + i * k;
    let mut b = Fr::zero();
    for j in 0..k
        invariant
            tv == values(trace@),
            base == s2 + i * k,
            base + k <= trace.len(),
            b@ == sum_to(j as int, |j: int| tv[s2 + i * k + j] * pow(gamma@, j as nat)),
    {
        b = b + trace[base + j] * gamma.pow(j as u64);
    }
    b
}

} // verus!
