//! What a proof consists of.

use vstd::prelude::*;

use crate::field::Block128;
use crate::poly::univariate::UnivariatePoly;

verus! {

/// A proof. The chiplets' parts are parallel: the k-th chiplet has the k-th
/// entry of each list.
#[derive(Clone, Debug)]
pub struct InnerProof {
    pub trace_commitment: BrakedownCommitment,
    /// The sum-check of the main constraints.
    pub zerocheck_proof: SumcheckProof,
    /// Bus endpoints of the main trace.
    pub main_logup_aux: LogUpAux,
    /// Pins the trace's evaluations to its commitment.
    pub eval_proof: EvalBatchProof,
    pub chiplet_commitments: Vec<BrakedownCommitment>,
    pub chiplet_zerocheck_proofs: Vec<SumcheckProof>,
    pub chiplet_logup_aux: Vec<LogUpAux>,
    pub chiplet_eval_proofs: Vec<EvalBatchProof>,
    /// Absorbed before the first challenge.
    pub pad_root: Option<[u8; 32]>,
    /// Present where `pad_root` is.
    pub outer: Option<OuterProof>,
}

impl InnerProof {
    pub fn new(
        trace_commitment: BrakedownCommitment,
        zerocheck_proof: SumcheckProof,
        main_logup_aux: LogUpAux,
        eval_proof: EvalBatchProof,
        chiplet_commitments: Vec<BrakedownCommitment>,
        chiplet_zerocheck_proofs: Vec<SumcheckProof>,
        chiplet_logup_aux: Vec<LogUpAux>,
        chiplet_eval_proofs: Vec<EvalBatchProof>,
        pad_root: Option<[u8; 32]>,
        outer: Option<OuterProof>,
    ) -> (r: Self)
        ensures
            r == (InnerProof {
                trace_commitment,
                zerocheck_proof,
                main_logup_aux,
                eval_proof,
                chiplet_commitments,
                chiplet_zerocheck_proofs,
                chiplet_logup_aux,
                chiplet_eval_proofs,
                pad_root,
                outer,
            }),
    {
        InnerProof {
            trace_commitment,
            zerocheck_proof,
            main_logup_aux,
            eval_proof,
            chiplet_commitments,
            chiplet_zerocheck_proofs,
            chiplet_logup_aux,
            chiplet_eval_proofs,
            pad_root,
            outer,
        }
    }
}

/// The opened columns of one oracle: `values` holds the rows of every column,
/// in the order of `columns`.
#[derive(Clone, Debug)]
pub struct OuterOpening {
    pub columns: Vec<u32>,
    pub values: Vec<Block128>,
    pub siblings: Vec<[u8; 32]>,
}

/// The outer part of a proof: a root, the responses to three tests, and two
/// oracles opened at the same columns.
#[derive(Clone, Debug)]
pub struct OuterProof {
    pub aux_root: [u8; 32],
    pub interleaved: Vec<Block128>,
    pub linear: Vec<Block128>,
    pub quadratic: Vec<Block128>,
    pub pad_opening: OuterOpening,
    pub aux_opening: OuterOpening,
}

/// The opened columns of one commitment, and their Merkle siblings.
#[derive(Clone, Debug)]
pub struct BrakedownProof {
    /// The bytes of the opened columns, one for each queried index, in
    /// ascending order.
    pub opened_columns: Vec<Vec<u8>>,
    /// The siblings that cover all queried columns.
    pub batch_path: Vec<[u8; 32]>,
}

impl BrakedownProof {
    pub fn new(opened_columns: Vec<Vec<u8>>, batch_path: Vec<[u8; 32]>) -> (r: Self)
        ensures
            r == (BrakedownProof { opened_columns, batch_path }),
    {
        BrakedownProof { opened_columns, batch_path }
    }
}

/// A Merkle root and the dimensions it was taken over.
#[derive(Clone, Copy, Debug, PartialEq)]
pub struct BrakedownCommitment {
    pub root: [u8; 32],
    pub num_rows: usize,
    pub num_cols: usize,
}

/// The polynomials of a sum-check's rounds, and the claimed value at the
/// challenge point.
#[derive(Clone, Debug)]
pub struct SumcheckProof {
    pub round_polys: Vec<UnivariatePoly>,
    pub claimed_evaluation: Block128,
}

/// The two master evaluations, fixed before the challenge that binds them.
#[derive(Clone, Copy, Debug, PartialEq, Eq, Structural)]
pub struct MasterEvals {
    pub whole: Block128,
    pub ring: Block128,
}

/// Binds the evaluations of a table's columns at one point to its
/// commitments.
#[derive(Debug)]
pub struct EvalBatchProof {
    /// Reduces the batched claim to one evaluation.
    pub sumcheck_proof: SumcheckProof,
    /// Opens the rows that the challenge selects.
    pub ldt_proof: BrakedownProof,
    /// The point, and the claimed evaluations of the columns.
    pub point_evaluation: (Vec<Block128>, Vec<Block128>),
    pub tensor_vec: Vec<Block128>,
    pub master_evals: Option<MasterEvals>,
    /// The tree of the table's buses, opened at the same columns.
    pub h_ldt_proof: Option<BrakedownProof>,
}

impl Clone for EvalBatchProof {
    fn clone(&self) -> (r: Self)
        ensures
            cloned(self.sumcheck_proof, r.sumcheck_proof),
            cloned(self.ldt_proof, r.ldt_proof),
            r.point_evaluation.0@ == self.point_evaluation.0@,
            r.point_evaluation.1@ == self.point_evaluation.1@,
            r.tensor_vec@ == self.tensor_vec@,
            r.master_evals == self.master_evals,
            cloned(self.h_ldt_proof, r.h_ldt_proof),
    {
        EvalBatchProof {
            sumcheck_proof: self.sumcheck_proof.clone(),
            ldt_proof: self.ldt_proof.clone(),
            point_evaluation: (self.point_evaluation.0.clone(), self.point_evaluation.1.clone()),
            tensor_vec: self.tensor_vec.clone(),
            master_evals: self.master_evals,
            h_ldt_proof: self.h_ldt_proof.clone(),
        }
    }
}

impl EvalBatchProof {
    pub fn new(
        sumcheck_proof: SumcheckProof,
        ldt_proof: BrakedownProof,
        point_evaluation: (Vec<Block128>, Vec<Block128>),
        tensor_vec: Vec<Block128>,
        master_evals: Option<MasterEvals>,
        h_ldt_proof: Option<BrakedownProof>,
    ) -> (r: Self)
        ensures
            r == (EvalBatchProof {
                sumcheck_proof,
                ldt_proof,
                point_evaluation,
                tensor_vec,
                master_evals,
                h_ldt_proof,
            }),
    {
        EvalBatchProof {
            sumcheck_proof,
            ldt_proof,
            point_evaluation,
            tensor_vec,
            master_evals,
            h_ldt_proof,
        }
    }
}

/// The bus claims of one table, by bus.
#[derive(Debug)]
pub struct LogUpAux {
    pub h_evals: Vec<(String, Block128)>,
    pub claimed_sums: Vec<(String, Block128)>,
    /// None where the table has no bus.
    pub h_commitment: Option<BrakedownCommitment>,
}

/// The same claims, in another list.
fn clone_claims(claims: &Vec<(String, Block128)>) -> (r: Vec<(String, Block128)>)
    ensures
        r@ == claims@,
{
    let mut out: Vec<(String, Block128)> = Vec::with_capacity(claims.len());
    let mut i: usize = 0;
    while i < claims.len()
        invariant
            i <= claims@.len(),
            out@ =~= claims@.take(i as int),
        decreases claims@.len() - i,
    {
        out.push((claims[i].0.clone(), claims[i].1));
        i = i + 1;
    }
    out
}

impl Clone for LogUpAux {
    fn clone(&self) -> (r: Self)
        ensures
            r.h_evals@ == self.h_evals@,
            r.claimed_sums@ == self.claimed_sums@,
            r.h_commitment == self.h_commitment,
    {
        LogUpAux {
            h_evals: clone_claims(&self.h_evals),
            claimed_sums: clone_claims(&self.claimed_sums),
            h_commitment: self.h_commitment,
        }
    }
}

impl LogUpAux {
    pub fn new(h_evals: Vec<(String, Block128)>, claimed_sums: Vec<(String, Block128)>) -> (r: Self)
        ensures
            r == (LogUpAux { h_evals, claimed_sums, h_commitment: None }),
    {
        LogUpAux { h_evals, claimed_sums, h_commitment: None }
    }
}

} // verus!
