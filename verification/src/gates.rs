//! The expressions that the sumchecks of the protocol are about.
use vstd::prelude::*;
use crate::sumcheck::{
    Gate, coin, constant, gate_degree, gate_fits, gate_value, minus, plus, times, var,
};

verus! {

/// The product of two tables.
pub open spec fn product2() -> Gate {
    Gate::Mul(Box::new(Gate::Var(0)), Box::new(Gate::Var(1)))
}

/// The product of three tables.
pub open spec fn product3() -> Gate {
    Gate::Mul(Box::new(product2()), Box::new(Gate::Var(2)))
}

/// The product of four tables.
pub open spec fn product4() -> Gate {
    Gate::Mul(Box::new(product3()), Box::new(Gate::Var(3)))
}

/// The product of two tables less a third, times a fourth.
pub open spec fn constraint() -> Gate {
    Gate::Mul(
        Box::new(Gate::Sub(Box::new(product2()), Box::new(Gate::Var(2)))),
        Box::new(Gate::Var(3)),
    )
}

/// The product of two tables less one.
pub open spec fn inverse_defect(i: usize, j: usize) -> Gate {
    Gate::Sub(
        Box::new(Gate::Mul(Box::new(Gate::Var(i)), Box::new(Gate::Var(j)))),
        Box::new(Gate::Constant(1)),
    )
}

/// The defect of an inverse, times `eq`, plus a coin times the inverse.
pub open spec fn logup_left() -> Gate {
    Gate::Add(
        Box::new(Gate::Mul(Box::new(inverse_defect(0, 1)), Box::new(Gate::Var(2)))),
        Box::new(Gate::Mul(Box::new(Gate::Coin(0)), Box::new(Gate::Var(1)))),
    )
}

/// The defect of an inverse, times `eq`, plus a coin times the inverse times a
/// multiplicity.
pub open spec fn logup_right() -> Gate {
    Gate::Add(
        Box::new(Gate::Mul(Box::new(inverse_defect(0, 1)), Box::new(Gate::Var(3)))),
        Box::new(
            Gate::Mul(
                Box::new(Gate::Mul(Box::new(Gate::Coin(0)), Box::new(Gate::Var(1)))),
                Box::new(Gate::Var(2)),
            ),
        ),
    )
}

/// Three left-hand sides at once, weighted by one, a coin and another coin.
pub open spec fn logup_combined() -> Gate {
    Gate::Add(
        Box::new(
            Gate::Mul(
                Box::new(
                    Gate::Add(
                        Box::new(
                            Gate::Add(
                                Box::new(inverse_defect(0, 1)),
                                Box::new(
                                    Gate::Mul(
                                        Box::new(Gate::Coin(0)),
                                        Box::new(inverse_defect(2, 3)),
                                    ),
                                ),
                            ),
                        ),
                        Box::new(
                            Gate::Mul(Box::new(Gate::Coin(1)), Box::new(inverse_defect(4, 5))),
                        ),
                    ),
                ),
                Box::new(Gate::Var(6)),
            ),
        ),
        Box::new(
            Gate::Mul(
                Box::new(Gate::Coin(2)),
                Box::new(
                    Gate::Add(
                        Box::new(
                            Gate::Add(
                                Box::new(Gate::Var(1)),
                                Box::new(
                                    Gate::Mul(Box::new(Gate::Coin(0)), Box::new(Gate::Var(3))),
                                ),
                            ),
                        ),
                        Box::new(Gate::Mul(Box::new(Gate::Coin(1)), Box::new(Gate::Var(5)))),
                    ),
                ),
            ),
        ),
    )
}

pub fn product2_gate() -> (out: Gate)
    ensures
        out == product2(),
        gate_fits(out, 2, 0),
{
    reveal_with_fuel(gate_fits, 3);
    times(var(0), var(1))
}

pub fn product3_gate() -> (out: Gate)
    ensures
        out == product3(),
        gate_fits(out, 3, 0),
{
    reveal_with_fuel(gate_fits, 4);
    times(times(var(0), var(1)), var(2))
}

pub fn product4_gate() -> (out: Gate)
    ensures
        out == product4(),
        gate_fits(out, 4, 0),
{
    reveal_with_fuel(gate_fits, 5);
    times(times(times(var(0), var(1)), var(2)), var(3))
}

pub fn constraint_gate() -> (out: Gate)
    ensures
        out == constraint(),
        gate_fits(out, 4, 0),
{
    reveal_with_fuel(gate_fits, 5);
    times(minus(times(var(0), var(1)), var(2)), var(3))
}

fn inverse_defect_gate(i: usize, j: usize) -> (out: Gate)
    ensures
        out == inverse_defect(i, j),
{
    minus(times(var(i), var(j)), constant(1))
}

pub fn logup_left_gate() -> (out: Gate)
    ensures
        out == logup_left(),
        gate_fits(out, 3, 1),
{
    reveal_with_fuel(gate_fits, 6);
    plus(times(inverse_defect_gate(0, 1), var(2)), times(coin(0), var(1)))
}

pub fn logup_right_gate() -> (out: Gate)
    ensures
        out == logup_right(),
        gate_fits(out, 4, 1),
{
    reveal_with_fuel(gate_fits, 6);
    plus(times(inverse_defect_gate(0, 1), var(3)), times(times(coin(0), var(1)), var(2)))
}

pub fn logup_combined_gate() -> (out: Gate)
    ensures
        out == logup_combined(),
        gate_fits(out, 7, 3),
{
    reveal_with_fuel(gate_fits, 9);
    plus(
        times(
            plus(
                plus(inverse_defect_gate(0, 1), times(coin(0), inverse_defect_gate(2, 3))),
                times(coin(1), inverse_defect_gate(4, 5)),
            ),
            var(6),
        ),
        times(coin(2), plus(plus(var(1), times(coin(0), var(3))), times(coin(1), var(5)))),
    )
}

/// What the gates compute, and their degrees.
pub proof fn lemma_gate_values(v: Seq<int>, c: Seq<int>)
    ensures
        gate_value(product2(), v, c) == v[0] * v[1],
        gate_value(product3(), v, c) == v[0] * v[1] * v[2],
        gate_value(product4(), v, c) == v[0] * v[1] * v[2] * v[3],
        gate_value(constraint(), v, c) == (v[0] * v[1] - v[2]) * v[3],
        gate_value(logup_left(), v, c) == (v[0] * v[1] - 1) * v[2] + c[0] * v[1],
        gate_value(logup_right(), v, c) == (v[0] * v[1] - 1) * v[3] + c[0] * v[1] * v[2],
        gate_value(logup_combined(), v, c) == ((v[0] * v[1] - 1) + c[0] * (v[2] * v[3] - 1) + c[1]
            * (v[4] * v[5] - 1)) * v[6] + c[2] * (v[1] + c[0] * v[3] + c[1] * v[5]),
{
    reveal_with_fuel(gate_value, 9);
}

pub proof fn lemma_gate_degrees()
    ensures
        gate_degree(product2()) == 2,
        gate_degree(product3()) == 3,
        gate_degree(product4()) == 4,
        gate_degree(constraint()) == 3,
        gate_degree(logup_left()) == 3,
        gate_degree(logup_right()) == 3,
        gate_degree(logup_combined()) == 3,
{
    reveal_with_fuel(gate_degree, 9);
}

} // verus!
