//! What is worked out once for a circuit: the keys of the prover and the verifier.
use vstd::prelude::*;
use crate::circuit::{Circuit, CircuitView};
use crate::field::{Fr, copied, filled};
use crate::kzg::{Mkzg, MkzgCommit, MkzgProveParams, MkzgVerParams, VerParams, commit_of};
use crate::poly::MlPoly;
use crate::sparse::{
    GroupCommits, SparseCommits, SparsePolys, circuit_fits, group_commits, indices, prefix_group,
    sparse_commit, suffix_group, suffix_lens,
};

verus! {

/// The polynomials of a circuit that are public.
#[derive(Clone)]
pub struct DensePublicPolys {
    pub weights: MlPoly,
    pub tp: MlPoly,
    pub table_i: MlPoly,
    pub table_j: MlPoly,
    pub table_k: MlPoly,
    pub table_one: MlPoly,
}

/// The inputs of the rows of a table.
pub open spec fn table_inputs(t: Seq<(int, int, int)>) -> Seq<int> {
    t.map_values(|r: (int, int, int)| r.0)
}

/// The outputs of the rows of a table.
pub open spec fn table_outputs(t: Seq<(int, int, int)>) -> Seq<int> {
    t.map_values(|r: (int, int, int)| r.1)
}

/// The marks of the rows of a table.
pub open spec fn table_tags(t: Seq<(int, int, int)>) -> Seq<int> {
    t.map_values(|r: (int, int, int)| r.2)
}

/// A one for each row of a table.
pub open spec fn table_ones(t: Seq<(int, int, int)>) -> Seq<int> {
    t.map_values(|r: (int, int, int)| 1int)
}

impl DensePublicPolys {
    /// The polynomials are those of a circuit.
    pub open spec fn holds(&self, c: CircuitView) -> bool {
        &&& self.weights@ == c.weights
        &&& self.tp@ == c.tp
        &&& self.table_i@ == table_inputs(c.table)
        &&& self.table_j@ == table_outputs(c.table)
        &&& self.table_k@ == table_tags(c.table)
        &&& self.table_one@ == table_ones(c.table)
    }
}

/// What the prover holds of a circuit.
#[derive(Clone)]
pub struct ProvingKey {
    pub kzg_pp: MkzgProveParams,
    pub circuit: Circuit,
    pub dense_public_polys: DensePublicPolys,
    pub sparse_polys: SparsePolys,
}

impl ProvingKey {
    /// The parts of the key belong to its circuit.
    pub open spec fn consistent(&self) -> bool {
        &&& circuit_fits(self.circuit@, self.kzg_pp@.len() as int)
        &&& self.dense_public_polys.holds(self.circuit@)
        &&& self.sparse_polys.holds(self.circuit@)
    }
}

/// The exponents of what the verifier holds of a circuit.
pub ghost struct KeyView {
    pub vp: VerParams,
    pub weight_len: int,
    pub weights: Seq<int>,
    pub tp: Seq<int>,
    pub table_i: Seq<int>,
    pub table_j: Seq<int>,
    pub table_k: Seq<int>,
    pub table_one: Seq<int>,
    pub sup: GroupCommits,
    pub entry_len: int,
    pub lens: Seq<int>,
    pub b_pre: GroupCommits,
    pub b_pre_len: int,
}

/// What the verifier holds of a circuit.
#[derive(Clone)]
pub struct VerifierKey {
    pub kzg_vp: MkzgVerParams,
    pub weight_len: usize,
    pub weights_commit: MkzgCommit,
    pub tp_commit: MkzgCommit,
    pub table_i_commit: MkzgCommit,
    pub table_j_commit: MkzgCommit,
    pub table_k_commit: MkzgCommit,
    pub table_one_commit: MkzgCommit,
    pub sparse_commits: SparseCommits,
}

impl View for VerifierKey {
    type V = KeyView;

    open spec fn view(&self) -> KeyView {
        KeyView {
            vp: self.kzg_vp@,
            weight_len: self.weight_len as int,
            weights: self.weights_commit@,
            tp: self.tp_commit@,
            table_i: self.table_i_commit@,
            table_j: self.table_j_commit@,
            table_k: self.table_k_commit@,
            table_one: self.table_one_commit@,
            sup: self.sparse_commits.supergroups[0]@,
            entry_len: self.sparse_commits.supergroups[0].len as int,
            lens: indices(self.sparse_commits.supergroups[0].matrix_lens@),
            b_pre: self.sparse_commits.b_pre@,
            b_pre_len: self.sparse_commits.b_pre.len as int,
        }
    }
}

impl VerifierKey {
    /// There is a group of suffix entries.
    pub open spec fn complete(&self) -> bool {
        self.sparse_commits.supergroups.len() > 0
    }
}

/// What the verifier holds of a circuit, for parameters `srs` and `vp`.
pub open spec fn key_of(srs: Seq<int>, vp: VerParams, c: CircuitView) -> KeyView {
    KeyView {
        vp,
        weight_len: c.weight_len,
        weights: commit_of(srs, c.weights),
        tp: commit_of(srs, c.tp),
        table_i: commit_of(srs, table_inputs(c.table)),
        table_j: commit_of(srs, table_outputs(c.table)),
        table_k: commit_of(srs, table_tags(c.table)),
        table_one: commit_of(srs, table_ones(c.table)),
        sup: group_commits(srs, suffix_group(c)),
        entry_len: suffix_group(c).row.len() as int,
        lens: suffix_lens(c),
        b_pre: group_commits(srs, prefix_group(c)),
        b_pre_len: prefix_group(c).row.len() as int,
    }
}

/// Works out the keys.
pub struct Preprocessor;

impl Preprocessor {
    /// The keys for a circuit.
    pub fn build(
        kzg_pp: MkzgProveParams,
        kzg_vp: MkzgVerParams,
        circuit: Circuit,
    ) -> (out: (ProvingKey, VerifierKey))
        requires
            circuit_fits(circuit@, kzg_pp@.len() as int),
        ensures
            out.0.kzg_pp == kzg_pp,
            out.0.circuit == circuit,
            out.0.consistent(),
            out.1@ == key_of(kzg_pp@, kzg_vp@, circuit@),
            out.1.complete(),
    {
        let ghost c = circuit@;
        let (sparse_polys, sparse_commits) = sparse_commit(&kzg_pp, &circuit);
        let mut ti: Vec<Fr> = Vec::new();
        let mut tj: Vec<Fr> = Vec::new();
        let mut tk: Vec<Fr> = Vec::new();
        for r in 0..circuit.table.len()
            invariant
                c == circuit@,
                ti.len() == r,
                tj.len() == r,
                tk.len() == r,
                forall|i: int| 0 <= i < r ==> (#[trigger] ti[i])@ == c.table[i].0,
                forall|i: int| 0 <= i < r ==> (#[trigger] tj[i])@ == c.table[i].1,
                forall|i: int| 0 <= i < r ==> (#[trigger] tk[i])@ == c.table[i].2,
        {
            ti.push(circuit.table[r].0);
            tj.push(circuit.table[r].1);
            tk.push(circuit.table[r].2);
        }
        let ones = filled(Fr::one(), circuit.table.len());
        let dense = DensePublicPolys {
            weights: MlPoly(copied(&circuit.weights)),
            tp: MlPoly(copied(&circuit.tp)),
            table_i: MlPoly(ti),
            table_j: MlPoly(tj),
            table_k: MlPoly(tk),
            table_one: MlPoly(ones),
        };
        proof {
            assert(dense.table_i@ =~= table_inputs(c.table));
            assert(dense.table_j@ =~= table_outputs(c.table));
            assert(dense.table_k@ =~= table_tags(c.table));
            assert(dense.table_one@ =~= table_ones(c.table));
            assert(c.weights.len() == circuit.weights.len());
            assert(c.tp.len() == circuit.tp.len());
            assert(c.table.len() == circuit.table.len());
        }
        let vk = VerifierKey {
            weight_len: circuit.weight_len,
            weights_commit: Mkzg::commit(&kzg_pp, &dense.weights),
            tp_commit: Mkzg::commit(&kzg_pp, &dense.tp),
            table_i_commit: Mkzg::commit(&kzg_pp, &dense.table_i),
            table_j_commit: Mkzg::commit(&kzg_pp, &dense.table_j),
            table_k_commit: Mkzg::commit(&kzg_pp, &dense.table_k),
            table_one_commit: Mkzg::commit(&kzg_pp, &dense.table_one),
            sparse_commits,
            kzg_vp,
        };
        let pk = ProvingKey { kzg_pp, circuit, dense_public_polys: dense, sparse_polys };
        (pk, vk)
    }
}

} // verus!
