//! The instructions of a program.
use vstd::prelude::*;
use crate::circuit::LookupType;

verus! {

/// An instruction. Operands are cells of the trace, by index.
#[derive(Clone)]
pub enum Instruction {
    /// The product of two linear combinations.
    AddMult { input1: Vec<(usize, i64)>, input2: Vec<(usize, i64)> },
    /// The full cross-correlation of planes with kernels.
    Conv {
        n: usize,
        m: usize,
        in_channels: usize,
        out_channels: usize,
        start1: usize,
        start2: usize,
    },
    /// A table looked up at a linear combination.
    Lookup { input: Vec<(usize, i64)>, tp: LookupType },
    /// The product of two linear combinations, divided and rounded down.
    Div { input1: Vec<(usize, i64)>, input2: Vec<(usize, i64)>, divisor: i64 },
    /// The product of two matrices.
    MatMult { m: usize, n: usize, k: usize, start1: usize, start2: usize },
}

impl Instruction {
    /// The number of cells that the instruction writes.
    pub open spec fn outputs(&self) -> int {
        match *self {
            Instruction::Conv { n, m, in_channels, out_channels, start1, start2 } => {
                let side = n + m - 1;
                out_channels * side * side
            },
            Instruction::MatMult { m, n, k, start1, start2 } => m * k,
            _ => 1,
        }
    }

    /// The number of cells that the instruction writes is a word, and so is the
    /// side of its planes.
    pub open spec fn outputs_fit(&self) -> bool {
        match *self {
            Instruction::Conv { n, m, in_channels, out_channels, start1, start2 } => {
                let side = n + m - 1;
                &&& 0 <= side
                &&& n + m <= usize::MAX
                &&& out_channels * side <= usize::MAX
                &&& out_channels * side * side <= usize::MAX
            },
            Instruction::MatMult { m, n, k, start1, start2 } => m * k <= usize::MAX,
            _ => true,
        }
    }

    /// The number of cells that the instruction writes.
    pub fn output_len(&self) -> (out: usize)
        requires
            self.outputs_fit(),
        ensures
            out == self.outputs(),
    {
        match self {
            Instruction::Conv { n, m, in_channels: _, out_channels, start1: _, start2: _ } => {
                let side: usize = *n + *m - 1;
                assert(0 <= *out_channels * side * side) by (nonlinear_arith)
                    requires
                        0 <= *out_channels,
                        0 <= side,
                ;
                assert(0 <= *out_channels * side) by (nonlinear_arith)
                    requires
                        0 <= *out_channels,
                        0 <= side,
                ;
                *out_channels * side * side
            },
            Instruction::MatMult { m, n: _, k, start1: _, start2: _ } => {
                assert(0 <= *m * *k) by (nonlinear_arith)
                    requires
                        0 <= *m,
                        0 <= *k,
                ;
                *m * *k
            },
            _ => 1,
        }
    }
}

} // verus!
