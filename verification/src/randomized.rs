//! The advice of products and convolutions adds up to what they write, randomized.
use vstd::prelude::*;
use vstd::arithmetic::power::*;
use crate::circuit::LookupType;
use crate::compiler::{advice_len, aux_at};
use crate::instruction::Instruction;
use crate::products::{law_convolution, law_mat_product};
use crate::program::{
    LookupTable, advice, conv_cell, conv_term, instr_advice, instr_ok, instr_outputs, kernel_pow,
    kernel_value, left_value, mat_entry, out_at, plane_value, right_value, run, runs,
};
use crate::sums::{lemma_sum_eq, lemma_sum_zero, sum_to};

verus! {

/// An instruction writes as many cells as it says, and leaves as much advice.
proof fn lemma_lens(
    instr: Instruction,
    before: Seq<int>,
    trace: Seq<int>,
    out: int,
    tables: Seq<(LookupType, LookupTable)>,
    gamma: int,
)
    ensures
        instr_outputs(instr, before, tables).len() == instr.outputs(),
        instr_advice(instr, trace, out, gamma).len() == advice_len(instr),
        instr.outputs() >= 0,
{
    match instr {
        Instruction::Conv { n, m, in_channels, out_channels, start1, start2 } => {
            let outs = out_channels as int;
            let side = n + m - 1;
            let plane = side * side;
            assert(outs * side * side == outs * plane && outs * plane >= 0) by (nonlinear_arith)
                requires
                    outs >= 0,
                    plane == side * side,
            ;
        },
        Instruction::MatMult { m, n, k, start1, start2 } => {
            let a = m as int;
            let b = k as int;
            assert(a * b >= 0) by (nonlinear_arith)
                requires
                    a >= 0,
                    b >= 0,
            ;
        },
        _ => {},
    }
}

/// Where an instruction writes, and what it writes there.
proof fn lemma_trace_at(
    instrs: Seq<Instruction>,
    z0: Seq<int>,
    tables: Seq<(LookupType, LookupTable)>,
    i: int,
    q: int,
)
    requires
        0 <= i < q,
    ensures
        ({
            let before = run(instrs, i, z0, tables);
            let trace = run(instrs, q, z0, tables);
            let o = instr_outputs(instrs[i], before, tables);
            &&& before.len() + o.len() <= trace.len()
            &&& forall|t: int| 0 <= t < before.len() ==> trace[t] == #[trigger] before[t]
            &&& forall|t: int| 0 <= t < o.len() ==> trace[before.len() + t] == #[trigger] o[t]
        }),
    decreases q,
{
    if i < q - 1 {
        lemma_trace_at(instrs, z0, tables, i, q - 1);
        let less = run(instrs, q - 1, z0, tables);
        let trace = run(instrs, q, z0, tables);
        let before = run(instrs, i, z0, tables);
        let o = instr_outputs(instrs[i], before, tables);
        assert forall|t: int| 0 <= t < o.len() implies trace[before.len() + t]
            == #[trigger] o[t] by {
            assert(less[before.len() + t] == o[t]);
        }
    }
}

/// Where the advice of an instruction stands.
proof fn lemma_advice_at(
    instrs: Seq<Instruction>,
    trace: Seq<int>,
    start: int,
    gamma: int,
    i: int,
    q: int,
)
    requires
        0 <= i < q,
    ensures
        ({
            let before = advice(instrs, i, trace, start, gamma);
            let all = advice(instrs, q, trace, start, gamma);
            let v = instr_advice(instrs[i], trace, out_at(instrs, start, i), gamma);
            &&& before.len() + v.len() <= all.len()
            &&& forall|t: int| 0 <= t < v.len() ==> all[before.len() + t] == #[trigger] v[t]
        }),
    decreases q,
{
    if i < q - 1 {
        lemma_advice_at(instrs, trace, start, gamma, i, q - 1);
        let less = advice(instrs, q - 1, trace, start, gamma);
        let all = advice(instrs, q, trace, start, gamma);
        let before = advice(instrs, i, trace, start, gamma);
        let v = instr_advice(instrs[i], trace, out_at(instrs, start, i), gamma);
        assert forall|t: int| 0 <= t < v.len() implies all[before.len() + t]
            == #[trigger] v[t] by {
            assert(less[before.len() + t] == v[t]);
        }
    }
}

/// The places that the instructions count are those of the trace and the advice.
proof fn lemma_counts(
    instrs: Seq<Instruction>,
    z0: Seq<int>,
    tables: Seq<(LookupType, LookupTable)>,
    trace: Seq<int>,
    start: int,
    base: int,
    gamma: int,
    i: int,
)
    requires
        0 <= i <= instrs.len(),
    ensures
        run(instrs, i, z0, tables).len() == out_at(instrs, z0.len() as int, i),
        advice(instrs, i, trace, start, gamma).len() == aux_at(instrs, base, i) - base,
    decreases i,
{
    if i > 0 {
        lemma_counts(instrs, z0, tables, trace, start, base, gamma, i - 1);
        let before = run(instrs, i - 1, z0, tables);
        lemma_lens(
            instrs[i - 1],
            before,
            trace,
            out_at(instrs, start, i - 1),
            tables,
            gamma,
        );
    }
}

/// Products with a factor of zero add up to zero.
proof fn lemma_no_products(n: int, a: spec_fn(int) -> int, b: spec_fn(int) -> int)
    requires
        (forall|i: int| 0 <= i < n ==> #[trigger] a(i) == 0) || (forall|i: int|
            0 <= i < n ==> #[trigger] b(i) == 0),
    ensures
        sum_to(n, |i: int| a(i) * b(i)) == 0,
{
    let f = |i: int| a(i) * b(i);
    assert forall|i: int| 0 <= i < n implies #[trigger] f(i) == 0 by {
        let x = a(i);
        let y = b(i);
        assert(x == 0 || y == 0);
        assert(x * y == 0) by (nonlinear_arith)
            requires
                x == 0 || y == 0,
        ;
    }
    lemma_sum_zero(n, f);
}

/// The advice of a matrix product adds up to the randomized product.
proof fn lemma_product_sum(
    instr: Instruction,
    before: Seq<int>,
    trace: Seq<int>,
    out: int,
    tables: Seq<(LookupType, LookupTable)>,
    gamma: int,
)
    requires
        instr is MatMult,
        instr_ok(instr, before, tables),
        before.len() <= trace.len(),
        forall|t: int| 0 <= t < before.len() ==> trace[t] == #[trigger] before[t],
    ensures
        ({
            let v = instr_advice(instr, trace, out, gamma);
            let o = instr_outputs(instr, before, tables);
            sum_to(v.len() as int, |i: int| v[i]) == sum_to(
                o.len() as int,
                |t: int| o[t] * pow(gamma, t as nat),
            )
        }),
{
    let v = instr_advice(instr, trace, out, gamma);
    let o = instr_outputs(instr, before, tables);
    lemma_lens(instr, before, trace, out, tables, gamma);
    match instr {
        Instruction::MatMult { m, n, k, start1, start2 } => {
            let (mi, ni, ki) = (m as int, n as int, k as int);
            let (s1, s2) = (start1 as int, start2 as int);
            let a = |i: int| left_value(trace, mi, ki, s1, i, gamma);
            let b = |i: int| right_value(trace, ki, s2, i, gamma);
            let f = |i: int| v[i];
            let ab = |i: int| a(i) * b(i);
            lemma_sum_eq(ni, f, ab);
            if mi == 0 || ki == 0 {
                assert(mi * ki == 0) by (nonlinear_arith)
                    requires
                        mi == 0 || ki == 0,
                ;
                lemma_no_products(ni, a, b);
            } else {
                law_mat_product(before, mi, ni, ki, s1, s2, gamma);
                let w = |i: int|
                    left_value(before, mi, ki, s1, i, gamma) * right_value(
                        before,
                        ki,
                        s2,
                        i,
                        gamma,
                    );
                assert forall|i: int| 0 <= i < ni implies #[trigger] ab(i) == w(i) by {
                    let x = |j: int| trace[s1 + i * mi + j] * pow(gamma, (j * ki) as nat);
                    let y = |j: int| before[s1 + i * mi + j] * pow(gamma, (j * ki) as nat);
                    lemma_run_below(ni, mi, i);
                    assert forall|j: int| 0 <= j < mi implies #[trigger] x(j) == y(j) by {
                        assert(trace[s1 + i * mi + j] == before[s1 + i * mi + j]);
                    }
                    lemma_sum_eq(mi, x, y);
                    let x1 = |j: int| trace[s2 + i * ki + j] * pow(gamma, j as nat);
                    let y1 = |j: int| before[s2 + i * ki + j] * pow(gamma, j as nat);
                    lemma_run_below(ni, ki, i);
                    assert forall|j: int| 0 <= j < ki implies #[trigger] x1(j) == y1(j) by {
                        assert(trace[s2 + i * ki + j] == before[s2 + i * ki + j]);
                    }
                    lemma_sum_eq(ki, x1, y1);
                }
                lemma_sum_eq(ni, ab, w);
                lemma_sum_eq(
                    mi * ki,
                    |t: int| o[t] * pow(gamma, t as nat),
                    |t: int|
                        mat_entry(before, mi, ki, s1, s2, t / ki, t % ki, ni) * pow(
                            gamma,
                            t as nat,
                        ),
                );
            }
        },
        _ => {},
    }
}

/// A run is within all the runs.
proof fn lemma_run_below(n: int, size: int, i: int)
    requires
        0 <= i < n,
        0 <= size,
    ensures
        0 <= i * size,
        i * size + size <= n * size,
{
    assert(0 <= i * size && i * size + size <= n * size) by (nonlinear_arith)
        requires
            0 <= i < n,
            0 <= size,
    ;
}

/// The advice of a convolution adds up to the randomized convolution.
proof fn lemma_convolution_sum(
    instr: Instruction,
    before: Seq<int>,
    trace: Seq<int>,
    out: int,
    tables: Seq<(LookupType, LookupTable)>,
    gamma: int,
)
    requires
        instr is Conv,
        instr_ok(instr, before, tables),
        before.len() <= trace.len(),
        forall|t: int| 0 <= t < before.len() ==> trace[t] == #[trigger] before[t],
    ensures
        ({
            let v = instr_advice(instr, trace, out, gamma);
            let o = instr_outputs(instr, before, tables);
            sum_to(v.len() as int, |i: int| v[i]) == sum_to(
                o.len() as int,
                |t: int| o[t] * pow(gamma, t as nat),
            )
        }),
{
    let v = instr_advice(instr, trace, out, gamma);
    let o = instr_outputs(instr, before, tables);
    lemma_lens(instr, before, trace, out, tables, gamma);
    match instr {
        Instruction::Conv { n, m, in_channels, out_channels, start1, start2 } => {
            let (n0, m0) = (n as int, m as int);
            let (ins, outs) = (in_channels as int, out_channels as int);
            let (s1, s2) = (start1 as int, start2 as int);
            let side = n0 + m0 - 1;
            let plane = side * side;
            let a = |ch: int| plane_value(trace, n0, side, s1, ch, gamma);
            let b = |ch: int| kernel_value(trace, m0, outs, side, s2, ch, gamma);
            let f = |i: int| v[i];
            let ab = |i: int| a(i) * b(i);
            lemma_sum_eq(ins, f, ab);
            let g = |t: int| o[t] * pow(gamma, t as nat);
            if n0 == 0 || m0 == 0 || outs == 0 {
                assert(n0 == 0 ==> n0 * n0 == 0) by (nonlinear_arith);
                assert(outs * (m0 * m0) == 0 || n0 == 0) by (nonlinear_arith)
                    requires
                        n0 == 0 || m0 == 0 || outs == 0,
                ;
                lemma_no_products(ins, a, b);
                assert forall|t: int| 0 <= t < o.len() implies #[trigger] g(t) == 0 by {
                    let h = |u: int|
                        conv_term(
                            before,
                            n0,
                            m0,
                            outs,
                            s1,
                            s2,
                            t / plane,
                            (t / side) % side,
                            t % side,
                            u,
                        );
                    assert(outs == 0 ==> outs * plane == 0) by (nonlinear_arith);
                    assert(m0 == 0 ==> ins * (m0 * m0) == 0) by (nonlinear_arith);
                    lemma_sum_zero(ins * (m0 * m0), h);
                    assert(o[t] == 0);
                    let p = pow(gamma, t as nat);
                    assert(0 * p == 0);
                }
                lemma_sum_zero(o.len() as int, g);
            } else {
                law_convolution(before, n0, m0, ins, outs, s1, s2, gamma);
                let w = |ch: int|
                    plane_value(before, n0, side, s1, ch, gamma) * kernel_value(
                        before,
                        m0,
                        outs,
                        side,
                        s2,
                        ch,
                        gamma,
                    );
                let kernels = outs * (m0 * m0);
                assert(n0 * n0 >= 0 && kernels >= 0 && ins * kernels == (ins * outs) * (m0 * m0))
                    by (nonlinear_arith)
                    requires
                        outs >= 0,
                        kernels == outs * (m0 * m0),
                ;
                assert forall|i: int| 0 <= i < ins implies #[trigger] ab(i) == w(i) by {
                    let x = |t: int|
                        trace[s1 + i * (n0 * n0) + t] * pow(
                            gamma,
                            ((t / n0) * side + t % n0) as nat,
                        );
                    let y = |t: int|
                        before[s1 + i * (n0 * n0) + t] * pow(
                            gamma,
                            ((t / n0) * side + t % n0) as nat,
                        );
                    lemma_run_below(ins, n0 * n0, i);
                    assert forall|t: int| 0 <= t < n0 * n0 implies #[trigger] x(t) == y(t) by {
                        assert(trace[s1 + i * (n0 * n0) + t] == before[s1 + i * (n0 * n0) + t]);
                    }
                    lemma_sum_eq(n0 * n0, x, y);
                    let x1 = |t: int|
                        trace[s2 + i * kernels + t] * pow(gamma, kernel_pow(m0, side, t) as nat);
                    let y1 = |t: int|
                        before[s2 + i * kernels + t] * pow(gamma, kernel_pow(m0, side, t) as nat);
                    lemma_run_below(ins, kernels, i);
                    assert forall|t: int| 0 <= t < kernels implies #[trigger] x1(t) == y1(t) by {
                        assert(trace[s2 + i * kernels + t] == before[s2 + i * kernels + t]);
                    }
                    lemma_sum_eq(kernels, x1, y1);
                }
                lemma_sum_eq(ins, ab, w);
                lemma_sum_eq(
                    outs * plane,
                    g,
                    |t: int|
                        conv_cell(
                            before,
                            n0,
                            m0,
                            outs,
                            s1,
                            s2,
                            t / plane,
                            (t / side) % side,
                            t % side,
                            ins * (m0 * m0),
                        ) * pow(gamma, t as nat),
                );
            }
        },
        _ => {},
    }
}

/// The advice cells of a matrix product or a convolution, in the vector that an execution
/// and its advice make, add up to what the instruction wrote, weighted by the powers of the
/// randomizer; for every randomizer.
pub proof fn law_advice_sum(
    instrs: Seq<Instruction>,
    z0: Seq<int>,
    tables: Seq<(LookupType, LookupTable)>,
    gamma: int,
    i: int,
)
    requires
        runs(instrs, z0, tables),
        0 <= i < instrs.len(),
        instrs[i] is MatMult || instrs[i] is Conv,
    ensures
        ({
            let q = instrs.len() as int;
            let start = z0.len() as int;
            let trace = run(instrs, q, z0, tables);
            let z = trace + advice(instrs, q, trace, start, gamma);
            let out = out_at(instrs, start, i);
            let aux = aux_at(instrs, trace.len() as int, i);
            &&& 0 <= out && out + instrs[i].outputs() <= trace.len()
            &&& trace.len() <= aux && aux + advice_len(instrs[i]) <= z.len()
            &&& sum_to(advice_len(instrs[i]), |j: int| z[aux + j]) == sum_to(
                instrs[i].outputs(),
                |t: int| trace[out + t] * pow(gamma, t as nat),
            )
        }),
{
    let q = instrs.len() as int;
    let start = z0.len() as int;
    let trace = run(instrs, q, z0, tables);
    let z = trace + advice(instrs, q, trace, start, gamma);
    let base = trace.len() as int;
    let out = out_at(instrs, start, i);
    let aux = aux_at(instrs, base, i);
    let before = run(instrs, i, z0, tables);
    let v = instr_advice(instrs[i], trace, out, gamma);
    let o = instr_outputs(instrs[i], before, tables);
    lemma_counts(instrs, z0, tables, trace, start, base, gamma, i);
    lemma_trace_at(instrs, z0, tables, i, q);
    lemma_advice_at(instrs, trace, start, gamma, i, q);
    lemma_lens(instrs[i], before, trace, out, tables, gamma);
    assert(instr_ok(instrs[i], before, tables));
    if instrs[i] is MatMult {
        lemma_product_sum(instrs[i], before, trace, out, tables, gamma);
    } else {
        lemma_convolution_sum(instrs[i], before, trace, out, tables, gamma);
    }
    let a = |j: int| z[aux + j];
    let b = |j: int| v[j];
    assert forall|j: int| 0 <= j < v.len() implies #[trigger] a(j) == b(j) by {
        assert(z[aux + j] == advice(instrs, q, trace, start, gamma)[aux + j - base]);
    }
    lemma_sum_eq(v.len() as int, a, b);
    let c = |t: int| o[t] * pow(gamma, t as nat);
    let d = |t: int| trace[out + t] * pow(gamma, t as nat);
    assert forall|t: int| 0 <= t < o.len() implies #[trigger] c(t) == d(t) by {
        assert(trace[before.len() + t] == o[t]);
    }
    lemma_sum_eq(o.len() as int, c, d);
}

} // verus!
