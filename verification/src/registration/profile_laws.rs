//! What a profile says of a key and of the vectors of a certificate.
use vstd::prelude::*;
use vstd::arithmetic::power2::*;
use crate::circuit::CircuitView;
use crate::field::cong;
use crate::kzg::VerParams;
use crate::poly::{at, law_vertex, vertex};
use crate::preprocess::key_of;
use crate::sparse::{prefix_group, suffix_group, suffix_lens};
use crate::sumcheck::{lemma_log2_ceil, log2_ceil};
use crate::sums::lemma_pow2_step;
use super::accepted::boundaries_hold;
use super::certificate::{boundary_of, circuit_vectors, column_of, profile_matches, vectors_fit};
use super::checked::all_hold;
use super::compiled_laws::Compiled;
use super::encode::EncodingView;
use super::family::NUM_FAMILIES;
use super::found::{all_balance, balances, cell, equal_to, weight_in};
use super::kept::{lemma_equalities, lemma_first_vertex, lemma_last_vertex, lemma_zero_checks};
use super::relation::{Tab, equalities_of};
use super::slacks::law_slacks;
use super::witness::{
    CTR_AUX, CTR_CR, CTR_LR, CTR_OUT, NUM_COUNTERS, ProfileView, circuit_profile, profile_fits,
    tab_log, tab_ok,
};

verus! {

/// A profile that matches the key of a circuit has the sizes of the circuit: its parameters,
/// and its entries on the suffix columns and on the parameters.
pub proof fn law_profile_sizes(srs: Seq<int>, vp: VerParams, c: CircuitView, p: ProfileView)
    requires
        profile_matches(p, key_of(srs, vp, c)),
    ensures
        p.weight_len == c.weight_len,
        p.matrix_lens == suffix_lens(c),
        p.entry_len == suffix_group(c).row.len(),
        p.b_pre_len == prefix_group(c).row.len(),
{
}

/// The range that slacks are held to is the least power of two that holds all the cells and
/// two more.
pub proof fn law_profile_range(e: EncodingView, c: CircuitView)
    requires
        0 < e.z_len,
    ensures
        ({
            let n = pow2(circuit_profile(e, c).log_range as nat);
            e.z_len + 2 <= n < 2 * (e.z_len + 2)
        }),
{
    let l = log2_ceil(e.z_len + 2);
    lemma_log2_ceil(e.z_len + 2);
    lemma_pow2_step((l - 1) as nat);
}

proof fn lemma_end(f: spec_fn(Tab) -> Seq<int>, p: ProfileView, k: int)
    requires
        profile_fits(p),
        vectors_fit(f, p),
        boundaries_hold(f, p),
        0 <= k < 2 * (NUM_COUNTERS + NUM_FAMILIES),
    ensures
        ({
            let log = log2_ceil(p.instr_count + 1);
            let b = boundary_of(p, k);
            let j = if k % 2 == 0 {
                0
            } else {
                pow2(log) - 1
            };
            cong(b.value, cell(f, b.tab, log, j))
        }),
{
    let log = log2_ceil(p.instr_count + 1);
    let b = boundary_of(p, k);
    let t = b.tab;
    let len = pow2(log) as int;
    lemma_pow2_pos(log);
    lemma_first_vertex(log);
    lemma_last_vertex(log);
    let j = if k % 2 == 0 {
        0
    } else {
        len - 1
    };
    assert(t.committed() && tab_ok(t));
    assert(tab_log(p, t) == log);
    assert(0 < f(t).len() <= len);
    law_vertex(f(t), log, j);
    assert(b.point == vertex(log, j));
    assert(column_of(f, t, len)[j] == at(f(t), j));
}

/// Where the claims at the two ends hold, the counters begin behind the parameters and the
/// input, at the advice, and at the first rows; they end at the advice, at the end of the
/// cells, and at the numbers of the rows.
pub proof fn law_counter_ends(f: spec_fn(Tab) -> Seq<int>, p: ProfileView)
    requires
        profile_fits(p),
        vectors_fit(f, p),
        boundaries_hold(f, p),
    ensures
        ({
            let log = log2_ceil(p.instr_count + 1);
            let last = pow2(log) - 1;
            &&& cong(cell(f, Tab::Ctr(CTR_OUT), log, 0), p.weight_len + p.input_len)
            &&& cong(cell(f, Tab::Ctr(CTR_OUT), log, last), p.aux_start)
            &&& cong(cell(f, Tab::Ctr(CTR_AUX), log, 0), p.aux_start)
            &&& cong(cell(f, Tab::Ctr(CTR_AUX), log, last), p.z_len)
            &&& cong(cell(f, Tab::Ctr(CTR_CR), log, 0), 0)
            &&& cong(cell(f, Tab::Ctr(CTR_CR), log, last), p.cons_line)
            &&& cong(cell(f, Tab::Ctr(CTR_LR), log, 0), 0)
            &&& cong(cell(f, Tab::Ctr(CTR_LR), log, last), p.lu_line)
        }),
{
    lemma_end(f, p, 0);
    lemma_end(f, p, 1);
    lemma_end(f, p, 2);
    lemma_end(f, p, 3);
    lemma_end(f, p, 4);
    lemma_end(f, p, 5);
    lemma_end(f, p, 6);
    lemma_end(f, p, 7);
}

/// Where the claims at the two ends hold, each family begins with none of its entries and ends
/// with all of them.
pub proof fn law_family_ends(f: spec_fn(Tab) -> Seq<int>, p: ProfileView, k: usize)
    requires
        profile_fits(p),
        vectors_fit(f, p),
        boundaries_hold(f, p),
        k < NUM_FAMILIES,
    ensures
        ({
            let log = log2_ceil(p.instr_count + 1);
            &&& cong(cell(f, Tab::Base(k), log, 0), 0)
            &&& cong(cell(f, Tab::Base(k), log, pow2(log) - 1), p.family_lens[k as int])
        }),
{
    let i = 2 * (NUM_COUNTERS as int + k as int);
    lemma_end(f, p, i);
    lemma_end(f, p, i + 1);
    assert(i / 2 == NUM_COUNTERS + k && (i + 1) / 2 == NUM_COUNTERS + k);
}

/// The vectors of a compiled program with a parameter pass all the zero checks, whatever the
/// challenges, and the two sides of all the equalities balance.
pub proof fn law_program_passes(w: Compiled, chals: Seq<int>)
    requires
        w.ready(),
        w.weights.len() > 0,
    ensures
        ({
            let f = circuit_vectors(w.encoding(), w.circuit());
            let p = circuit_profile(w.encoding(), w.circuit());
            all_hold(f, p, chals) && all_balance(f, p)
        }),
{
    let f = circuit_vectors(w.encoding(), w.circuit());
    let p = circuit_profile(w.encoding(), w.circuit());
    let es = equalities_of(p);
    law_slacks(w);
    lemma_zero_checks(w, chals);
    assert forall|k: int| 0 <= k < es.len() implies balances(f, #[trigger] es[k]) by {
        assert forall|key: Seq<int>|
            cong(#[trigger] weight_in(f, es[k].left, key), weight_in(f, es[k].right, key)) by {
            lemma_equalities(w, equal_to(key), k);
        }
    }
}

} // verus!
