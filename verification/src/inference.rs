//! Proofs of executions are accepted.
use vstd::prelude::*;
use vstd::arithmetic::power2::*;
use crate::acceptance::{law_accepted, law_prefix_free, prove_off};
use crate::circuit::LookupType;
use crate::compiler::{circuit_of, validity_error};
use crate::execution::{all_found, law_execution, starts_with_one};
use crate::instruction::Instruction;
use crate::kzg::{srs_of, ver_params_of};
use crate::preprocess::key_of;
use crate::program::{LookupTable, advice, ints, run};
use crate::prover::{provable, prove_of, prove_ready};
use crate::sparse::circuit_fits;
use crate::verify::{unread, verify_stages};

verus! {

/// The cells that a program writes for parameters and an input, and its advice.
pub open spec fn execution_of(
    instrs: Seq<Instruction>,
    weights: Seq<i64>,
    input: Seq<i64>,
    tables: Seq<(LookupType, LookupTable)>,
    gamma: int,
) -> Seq<int> {
    let q = instrs.len() as int;
    let trace = run(instrs, q, ints(weights + input), tables);
    trace + advice(instrs, q, trace, (weights.len() + input.len()) as int, gamma)
}

/// A proof of an execution of a program without errors is accepted: by a verifier whose
/// key is for the circuit that the program compiles to, if everything that the program
/// looks up is in the table and no challenge of the rounds is a node.
pub proof fn law_inference(
    g: int,
    h: int,
    tau: Seq<int>,
    instrs: Seq<Instruction>,
    weights: Seq<i64>,
    input: Seq<i64>,
    tables: Seq<(LookupType, LookupTable)>,
    aux_start: int,
    table: Seq<(int, int, int)>,
    gamma: int,
    ch: Seq<int>,
)
    requires
        validity_error(
            instrs,
            weights.len() as int,
            input.len() as int,
            aux_start,
            table,
        ) is None,
        starts_with_one(
            instrs,
            run(instrs, instrs.len() as int, ints(weights + input), tables),
        ),
        all_found(
            instrs,
            run(instrs, instrs.len() as int, ints(weights + input), tables),
            (weights.len() + input.len()) as int,
            table,
        ),
        ({
            let c = circuit_of(instrs, weights, input.len() as int, aux_start, table);
            let z = execution_of(instrs, weights, input, tables, gamma);
            let srs = srs_of(g, tau);
            &&& circuit_fits(c, pow2(tau.len()) as int)
            &&& provable(c)
            &&& prove_ready(srs, c, z, gamma, ch)
            &&& prove_off(srs, c, z, gamma, ch)
        }),
    ensures
        ({
            let c = circuit_of(instrs, weights, input.len() as int, aux_start, table);
            let z = execution_of(instrs, weights, input, tables, gamma);
            let srs = srs_of(g, tau);
            let full = prove_of(srs, c, z, gamma, ch);
            let st = verify_stages(
                key_of(srs, ver_params_of(g, h, tau), c),
                gamma,
                unread(full.u, full.f, full.g, ch),
            );
            st.ok && st.ch == full.ch
        }),
{
    let c = circuit_of(instrs, weights, input.len() as int, aux_start, table);
    let z = execution_of(instrs, weights, input, tables, gamma);
    law_execution(instrs, weights, input, tables, aux_start, table, gamma);
    law_prefix_free(c, srs_of(g, tau), z, gamma, ch);
    law_accepted(g, h, tau, c, z, gamma, ch);
}

} // verus!
