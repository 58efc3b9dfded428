//! Solvers of the integer model: the full-sweep reference solver and the
//! frontier solvers that re-evaluate only cells near the last changes.
use vstd::prelude::*;
use crate::reference::params::PROB_BASE;
use crate::reference::state::State;
use crate::reference::state::Action;
use crate::reference::value_iterator::{StateSpace, sweep_spec, lemma_sweep_keeps, states_ok, actions_ok};
use crate::bitboard::{fits2, fits3};
use crate::reference::solvers::frontier::{frontier_ok, offsets_ok, is_displacement, frontier3d_result, frontier2d_result,
    frontier3d_solve, frontier2d_solve};
use crate::reference::solvers::fused::{Geom, geom_fits};
use crate::reference::solvers::par_unsafe::{gs2d_result, frontier2d_par_unsafe_solve};
use crate::reference::solvers::fused_async::{fused_async_result, frontier2d_fused_solve, lemma_fused_greatest};
use crate::reference::solvers::block::{block_refine_result, block_refine_solve, block_refine_done};
use crate::reference::solvers::sparse::{sparse_result, frontier2d_sparse_solve, lemma_sparse_above_settled};
use crate::reference::solvers::sparse_settle::lemma_sparse_greatest;
use crate::reference::solvers::pad_settle::{above_best, lemma_pad_greatest, all_reached, lemma_unclamped_is_padded};
use crate::reference::solvers::sweep_settle::{reached_below, lemma_reference_greatest};
use crate::reference::solvers::frontier_settle::{lemma_frontier3d_greatest, lemma_listed3_ok};
use crate::reference::solvers::topk::{all_within_k, lemma_topk_full_is_exact};
use crate::reference::solvers::frontier::{rounds3, seed_view3};
use crate::bitboard::ops::dilate_stack;
use crate::reference::solvers::topk::{probs_ok, frontier3d_topk_solve};
use crate::reference::solvers::pad::frontier2d_pad_solve;
use crate::reference::solvers::par::{par2d_result, frontier2d_par_solve, jrounds2, policy_of};
use crate::reference::solvers::par_unsafe::gs_rounds;
use crate::reference::solvers::frontier::seed_view2;
use crate::reference::solvers::greatest::{agree_ok, greatest_settled, lemma_greatest_unique};

pub mod frontier;
pub mod block;
pub mod fused;
pub mod sparse;
pub mod compact;
pub mod topk;
pub mod priority;
pub mod pad;
pub mod par;
pub mod settle;
pub mod par_unsafe;
pub mod fused_async;
pub mod band;
pub mod greatest;
pub mod compact_solve;
pub mod sparse_settle;
pub mod pad_settle;
pub mod sweep_settle;
pub mod frontier_settle;

verus! {

/// Costs below this bound count as reached (`1_000_000 * PROB_BASE`).
pub const REACH_THRESH: u64 = 262_144_000_000;

/// The characters of `a` and `b` agree.
pub fn same_text(a: &str, b: &str) -> (r: bool)
    ensures
        r == (a@ == b@),
{
    let n = a.unicode_len();
    if n != b.unicode_len() {
        return false;
    }
    let mut i: usize = 0;
    while i < n
        invariant
            0 <= i <= n,
            n == a@.len(),
            n == b@.len(),
            forall|j: int| 0 <= j < i ==> a@[j] == b@[j],
        decreases n - i,
    {
        if a.get_char(i) != b.get_char(i) {
            return false;
        }
        i += 1;
    }
    proof {
        assert(a@ =~= b@);
    }
    true
}

/// The solvers of the integer model.  The approximate ones reduce to
/// `Frontier3D` with their default parameters (`tau = 0`, `k` covering every
/// outcome, `step = 1`).
#[derive(Clone, Copy, Debug, PartialEq, Eq)]
pub enum U64Solver {
    Reference,
    Frontier3D,
    Frontier2D,
    Frontier2DSoA,
    Frontier2DPad,
    Frontier2DPar,
    Frontier2DParUnsafe,
    Frontier2DFused,
    Frontier2DSparse,
    FrontierStack,
    BlockRefine,
    PyramidSweep,
    Frontier3DTau { tau: u64 },
    Frontier3DTopK { k: u32 },
    Frontier3DCoarseTheta { step: u32 },
    StreamMimic,
    PriorityLabelSetting,
    PriorityLabelCorrecting,
}

/// The solver a name selects, if any.
pub open spec fn solver_named(s: Seq<char>) -> Option<U64Solver> {
    if s == "reference"@ {
        Some(U64Solver::Reference)
    } else if s == "frontier3d"@ {
        Some(U64Solver::Frontier3D)
    } else if s == "frontier2d"@ {
        Some(U64Solver::Frontier2D)
    } else if s == "frontier2d_soa"@ {
        Some(U64Solver::Frontier2DSoA)
    } else if s == "frontier2d_pad"@ {
        Some(U64Solver::Frontier2DPad)
    } else if s == "frontier2d_par"@ {
        Some(U64Solver::Frontier2DPar)
    } else if s == "frontier2d_par_unsafe"@ {
        Some(U64Solver::Frontier2DParUnsafe)
    } else if s == "frontier2d_fused"@ {
        Some(U64Solver::Frontier2DFused)
    } else if s == "frontier2d_sparse"@ {
        Some(U64Solver::Frontier2DSparse)
    } else if s == "frontier_stack"@ {
        Some(U64Solver::FrontierStack)
    } else if s == "block_refine"@ {
        Some(U64Solver::BlockRefine)
    } else if s == "pyramid_sweep"@ {
        Some(U64Solver::PyramidSweep)
    } else if s == "frontier3d_tau"@ {
        Some(U64Solver::Frontier3DTau { tau: 0 })
    } else if s == "frontier3d_topk"@ {
        Some(U64Solver::Frontier3DTopK { k: u32::MAX })
    } else if s == "frontier3d_coarse_theta"@ {
        Some(U64Solver::Frontier3DCoarseTheta { step: 1 })
    } else if s == "stream_mimic"@ {
        Some(U64Solver::StreamMimic)
    } else if s == "prio_ls"@ {
        Some(U64Solver::PriorityLabelSetting)
    } else if s == "prio_lc"@ {
        Some(U64Solver::PriorityLabelCorrecting)
    } else {
        None
    }
}

/// The name that selects a solver: its variant's own name, whatever its parameters.
pub open spec fn solver_label(v: U64Solver) -> Seq<char> {
    match v {
        U64Solver::Reference => "reference"@,
        U64Solver::Frontier3D => "frontier3d"@,
        U64Solver::Frontier2D => "frontier2d"@,
        U64Solver::Frontier2DSoA => "frontier2d_soa"@,
        U64Solver::Frontier2DPad => "frontier2d_pad"@,
        U64Solver::Frontier2DPar => "frontier2d_par"@,
        U64Solver::Frontier2DParUnsafe => "frontier2d_par_unsafe"@,
        U64Solver::Frontier2DFused => "frontier2d_fused"@,
        U64Solver::Frontier2DSparse => "frontier2d_sparse"@,
        U64Solver::FrontierStack => "frontier_stack"@,
        U64Solver::BlockRefine => "block_refine"@,
        U64Solver::PyramidSweep => "pyramid_sweep"@,
        U64Solver::Frontier3DTau { .. } => "frontier3d_tau"@,
        U64Solver::Frontier3DTopK { .. } => "frontier3d_topk"@,
        U64Solver::Frontier3DCoarseTheta { .. } => "frontier3d_coarse_theta"@,
        U64Solver::StreamMimic => "stream_mimic"@,
        U64Solver::PriorityLabelSetting => "prio_ls"@,
        U64Solver::PriorityLabelCorrecting => "prio_lc"@,
    }
}

/// The parameters a bare name selects: no threshold, every outcome kept, every heading.
pub open spec fn default_params(v: U64Solver) -> bool {
    match v {
        U64Solver::Frontier3DTau { tau } => tau == 0,
        U64Solver::Frontier3DTopK { k } => k == u32::MAX,
        U64Solver::Frontier3DCoarseTheta { step } => step == 1,
        _ => true,
    }
}

/// Selecting by name inverts the solver's name: a name that selects a solver
/// is that solver's name, the solver has its default parameters, and the
/// name of every solver with default parameters selects it.
pub proof fn lemma_solver_names(s: Seq<char>, v: U64Solver)
    ensures
        solver_named(s) == Some(v) ==> s == solver_label(v) && default_params(v),
        default_params(v) ==> solver_named(solver_label(v)) == Some(v),
{
    reveal_strlit("reference");
    reveal_strlit("frontier3d");
    reveal_strlit("frontier2d");
    reveal_strlit("frontier2d_soa");
    reveal_strlit("frontier2d_pad");
    reveal_strlit("frontier2d_par");
    reveal_strlit("frontier2d_par_unsafe");
    reveal_strlit("frontier2d_fused");
    reveal_strlit("frontier2d_sparse");
    reveal_strlit("frontier_stack");
    reveal_strlit("block_refine");
    reveal_strlit("pyramid_sweep");
    reveal_strlit("frontier3d_tau");
    reveal_strlit("frontier3d_topk");
    reveal_strlit("frontier3d_coarse_theta");
    reveal_strlit("stream_mimic");
    reveal_strlit("prio_ls");
    reveal_strlit("prio_lc");
    if default_params(v) {
        match v {
            U64Solver::Reference => {},
            U64Solver::Frontier3D => {
                assert("frontier3d"@.len() != "reference"@.len());
            },
            U64Solver::Frontier2D => {
                assert("frontier2d"@.len() != "reference"@.len());
                assert("frontier2d"@[8] != "frontier3d"@[8]);
            },
            U64Solver::Frontier2DSoA => {
                assert("frontier2d_soa"@.len() != "reference"@.len());
                assert("frontier2d_soa"@.len() != "frontier3d"@.len());
                assert("frontier2d_soa"@.len() != "frontier2d"@.len());
            },
            U64Solver::Frontier2DPad => {
                assert("frontier2d_pad"@.len() != "reference"@.len());
                assert("frontier2d_pad"@.len() != "frontier3d"@.len());
                assert("frontier2d_pad"@.len() != "frontier2d"@.len());
                assert("frontier2d_pad"@[11] != "frontier2d_soa"@[11]);
            },
            U64Solver::Frontier2DPar => {
                assert("frontier2d_par"@.len() != "reference"@.len());
                assert("frontier2d_par"@.len() != "frontier3d"@.len());
                assert("frontier2d_par"@.len() != "frontier2d"@.len());
                assert("frontier2d_par"@[11] != "frontier2d_soa"@[11]);
                assert("frontier2d_par"@[13] != "frontier2d_pad"@[13]);
            },
            U64Solver::Frontier2DParUnsafe => {
                assert("frontier2d_par_unsafe"@.len() != "reference"@.len());
                assert("frontier2d_par_unsafe"@.len() != "frontier3d"@.len());
                assert("frontier2d_par_unsafe"@.len() != "frontier2d"@.len());
                assert("frontier2d_par_unsafe"@.len() != "frontier2d_soa"@.len());
                assert("frontier2d_par_unsafe"@.len() != "frontier2d_pad"@.len());
                assert("frontier2d_par_unsafe"@.len() != "frontier2d_par"@.len());
            },
            U64Solver::Frontier2DFused => {
                assert("frontier2d_fused"@.len() != "reference"@.len());
                assert("frontier2d_fused"@.len() != "frontier3d"@.len());
                assert("frontier2d_fused"@.len() != "frontier2d"@.len());
                assert("frontier2d_fused"@.len() != "frontier2d_soa"@.len());
                assert("frontier2d_fused"@.len() != "frontier2d_pad"@.len());
                assert("frontier2d_fused"@.len() != "frontier2d_par"@.len());
                assert("frontier2d_fused"@.len() != "frontier2d_par_unsafe"@.len());
            },
            U64Solver::Frontier2DSparse => {
                assert("frontier2d_sparse"@.len() != "reference"@.len());
                assert("frontier2d_sparse"@.len() != "frontier3d"@.len());
                assert("frontier2d_sparse"@.len() != "frontier2d"@.len());
                assert("frontier2d_sparse"@.len() != "frontier2d_soa"@.len());
                assert("frontier2d_sparse"@.len() != "frontier2d_pad"@.len());
                assert("frontier2d_sparse"@.len() != "frontier2d_par"@.len());
                assert("frontier2d_sparse"@.len() != "frontier2d_par_unsafe"@.len());
                assert("frontier2d_sparse"@.len() != "frontier2d_fused"@.len());
            },
            U64Solver::FrontierStack => {
                assert("frontier_stack"@.len() != "reference"@.len());
                assert("frontier_stack"@.len() != "frontier3d"@.len());
                assert("frontier_stack"@.len() != "frontier2d"@.len());
                assert("frontier_stack"@[8] != "frontier2d_soa"@[8]);
                assert("frontier_stack"@[8] != "frontier2d_pad"@[8]);
                assert("frontier_stack"@[8] != "frontier2d_par"@[8]);
                assert("frontier_stack"@.len() != "frontier2d_par_unsafe"@.len());
                assert("frontier_stack"@.len() != "frontier2d_fused"@.len());
                assert("frontier_stack"@.len() != "frontier2d_sparse"@.len());
            },
            U64Solver::BlockRefine => {
                assert("block_refine"@.len() != "reference"@.len());
                assert("block_refine"@.len() != "frontier3d"@.len());
                assert("block_refine"@.len() != "frontier2d"@.len());
                assert("block_refine"@.len() != "frontier2d_soa"@.len());
                assert("block_refine"@.len() != "frontier2d_pad"@.len());
                assert("block_refine"@.len() != "frontier2d_par"@.len());
                assert("block_refine"@.len() != "frontier2d_par_unsafe"@.len());
                assert("block_refine"@.len() != "frontier2d_fused"@.len());
                assert("block_refine"@.len() != "frontier2d_sparse"@.len());
                assert("block_refine"@.len() != "frontier_stack"@.len());
            },
            U64Solver::PyramidSweep => {
                assert("pyramid_sweep"@.len() != "reference"@.len());
                assert("pyramid_sweep"@.len() != "frontier3d"@.len());
                assert("pyramid_sweep"@.len() != "frontier2d"@.len());
                assert("pyramid_sweep"@.len() != "frontier2d_soa"@.len());
                assert("pyramid_sweep"@.len() != "frontier2d_pad"@.len());
                assert("pyramid_sweep"@.len() != "frontier2d_par"@.len());
                assert("pyramid_sweep"@.len() != "frontier2d_par_unsafe"@.len());
                assert("pyramid_sweep"@.len() != "frontier2d_fused"@.len());
                assert("pyramid_sweep"@.len() != "frontier2d_sparse"@.len());
                assert("pyramid_sweep"@.len() != "frontier_stack"@.len());
                assert("pyramid_sweep"@.len() != "block_refine"@.len());
            },
            U64Solver::Frontier3DTau { .. } => {
                assert("frontier3d_tau"@.len() != "reference"@.len());
                assert("frontier3d_tau"@.len() != "frontier3d"@.len());
                assert("frontier3d_tau"@.len() != "frontier2d"@.len());
                assert("frontier3d_tau"@[8] != "frontier2d_soa"@[8]);
                assert("frontier3d_tau"@[8] != "frontier2d_pad"@[8]);
                assert("frontier3d_tau"@[8] != "frontier2d_par"@[8]);
                assert("frontier3d_tau"@.len() != "frontier2d_par_unsafe"@.len());
                assert("frontier3d_tau"@.len() != "frontier2d_fused"@.len());
                assert("frontier3d_tau"@.len() != "frontier2d_sparse"@.len());
                assert("frontier3d_tau"@[8] != "frontier_stack"@[8]);
                assert("frontier3d_tau"@.len() != "block_refine"@.len());
                assert("frontier3d_tau"@.len() != "pyramid_sweep"@.len());
            },
            U64Solver::Frontier3DTopK { .. } => {
                assert("frontier3d_topk"@.len() != "reference"@.len());
                assert("frontier3d_topk"@.len() != "frontier3d"@.len());
                assert("frontier3d_topk"@.len() != "frontier2d"@.len());
                assert("frontier3d_topk"@.len() != "frontier2d_soa"@.len());
                assert("frontier3d_topk"@.len() != "frontier2d_pad"@.len());
                assert("frontier3d_topk"@.len() != "frontier2d_par"@.len());
                assert("frontier3d_topk"@.len() != "frontier2d_par_unsafe"@.len());
                assert("frontier3d_topk"@.len() != "frontier2d_fused"@.len());
                assert("frontier3d_topk"@.len() != "frontier2d_sparse"@.len());
                assert("frontier3d_topk"@.len() != "frontier_stack"@.len());
                assert("frontier3d_topk"@.len() != "block_refine"@.len());
                assert("frontier3d_topk"@.len() != "pyramid_sweep"@.len());
                assert("frontier3d_topk"@.len() != "frontier3d_tau"@.len());
            },
            U64Solver::Frontier3DCoarseTheta { .. } => {
                assert("frontier3d_coarse_theta"@.len() != "reference"@.len());
                assert("frontier3d_coarse_theta"@.len() != "frontier3d"@.len());
                assert("frontier3d_coarse_theta"@.len() != "frontier2d"@.len());
                assert("frontier3d_coarse_theta"@.len() != "frontier2d_soa"@.len());
                assert("frontier3d_coarse_theta"@.len() != "frontier2d_pad"@.len());
                assert("frontier3d_coarse_theta"@.len() != "frontier2d_par"@.len());
                assert("frontier3d_coarse_theta"@.len() != "frontier2d_par_unsafe"@.len());
                assert("frontier3d_coarse_theta"@.len() != "frontier2d_fused"@.len());
                assert("frontier3d_coarse_theta"@.len() != "frontier2d_sparse"@.len());
                assert("frontier3d_coarse_theta"@.len() != "frontier_stack"@.len());
                assert("frontier3d_coarse_theta"@.len() != "block_refine"@.len());
                assert("frontier3d_coarse_theta"@.len() != "pyramid_sweep"@.len());
                assert("frontier3d_coarse_theta"@.len() != "frontier3d_tau"@.len());
                assert("frontier3d_coarse_theta"@.len() != "frontier3d_topk"@.len());
            },
            U64Solver::StreamMimic => {
                assert("stream_mimic"@.len() != "reference"@.len());
                assert("stream_mimic"@.len() != "frontier3d"@.len());
                assert("stream_mimic"@.len() != "frontier2d"@.len());
                assert("stream_mimic"@.len() != "frontier2d_soa"@.len());
                assert("stream_mimic"@.len() != "frontier2d_pad"@.len());
                assert("stream_mimic"@.len() != "frontier2d_par"@.len());
                assert("stream_mimic"@.len() != "frontier2d_par_unsafe"@.len());
                assert("stream_mimic"@.len() != "frontier2d_fused"@.len());
                assert("stream_mimic"@.len() != "frontier2d_sparse"@.len());
                assert("stream_mimic"@.len() != "frontier_stack"@.len());
                assert("stream_mimic"@[0] != "block_refine"@[0]);
                assert("stream_mimic"@.len() != "pyramid_sweep"@.len());
                assert("stream_mimic"@.len() != "frontier3d_tau"@.len());
                assert("stream_mimic"@.len() != "frontier3d_topk"@.len());
                assert("stream_mimic"@.len() != "frontier3d_coarse_theta"@.len());
            },
            U64Solver::PriorityLabelSetting => {
                assert("prio_ls"@.len() != "reference"@.len());
                assert("prio_ls"@.len() != "frontier3d"@.len());
                assert("prio_ls"@.len() != "frontier2d"@.len());
                assert("prio_ls"@.len() != "frontier2d_soa"@.len());
                assert("prio_ls"@.len() != "frontier2d_pad"@.len());
                assert("prio_ls"@.len() != "frontier2d_par"@.len());
                assert("prio_ls"@.len() != "frontier2d_par_unsafe"@.len());
                assert("prio_ls"@.len() != "frontier2d_fused"@.len());
                assert("prio_ls"@.len() != "frontier2d_sparse"@.len());
                assert("prio_ls"@.len() != "frontier_stack"@.len());
                assert("prio_ls"@.len() != "block_refine"@.len());
                assert("prio_ls"@.len() != "pyramid_sweep"@.len());
                assert("prio_ls"@.len() != "frontier3d_tau"@.len());
                assert("prio_ls"@.len() != "frontier3d_topk"@.len());
                assert("prio_ls"@.len() != "frontier3d_coarse_theta"@.len());
                assert("prio_ls"@.len() != "stream_mimic"@.len());
            },
            U64Solver::PriorityLabelCorrecting => {
                assert("prio_lc"@.len() != "reference"@.len());
                assert("prio_lc"@.len() != "frontier3d"@.len());
                assert("prio_lc"@.len() != "frontier2d"@.len());
                assert("prio_lc"@.len() != "frontier2d_soa"@.len());
                assert("prio_lc"@.len() != "frontier2d_pad"@.len());
                assert("prio_lc"@.len() != "frontier2d_par"@.len());
                assert("prio_lc"@.len() != "frontier2d_par_unsafe"@.len());
                assert("prio_lc"@.len() != "frontier2d_fused"@.len());
                assert("prio_lc"@.len() != "frontier2d_sparse"@.len());
                assert("prio_lc"@.len() != "frontier_stack"@.len());
                assert("prio_lc"@.len() != "block_refine"@.len());
                assert("prio_lc"@.len() != "pyramid_sweep"@.len());
                assert("prio_lc"@.len() != "frontier3d_tau"@.len());
                assert("prio_lc"@.len() != "frontier3d_topk"@.len());
                assert("prio_lc"@.len() != "frontier3d_coarse_theta"@.len());
                assert("prio_lc"@.len() != "stream_mimic"@.len());
                assert("prio_lc"@[6] != "prio_ls"@[6]);
            },
        }
    }
}

/// Distinct names select distinct solvers.
pub proof fn lemma_solver_names_injective(s1: Seq<char>, s2: Seq<char>)
    requires
        solver_named(s1) is Some,
        solver_named(s1) == solver_named(s2),
    ensures
        s1 == s2,
{
    let v = solver_named(s1).unwrap();
    lemma_solver_names(s1, v);
    lemma_solver_names(s2, v);
}

impl U64Solver {
    /// The solver named `s`; the approximate solvers get their default parameters.
    pub fn from_name(s: &str) -> (r: Option<Self>)
        ensures
            r == solver_named(s@),
            r matches Some(v) ==> s@ == solver_label(v) && default_params(v),
    {
        proof {
            if let Some(v) = solver_named(s@) {
                lemma_solver_names(s@, v);
            }
        }
        if same_text(s, "reference") {
            Some(U64Solver::Reference)
        } else if same_text(s, "frontier3d") {
            Some(U64Solver::Frontier3D)
        } else if same_text(s, "frontier2d") {
            Some(U64Solver::Frontier2D)
        } else if same_text(s, "frontier2d_soa") {
            Some(U64Solver::Frontier2DSoA)
        } else if same_text(s, "frontier2d_pad") {
            Some(U64Solver::Frontier2DPad)
        } else if same_text(s, "frontier2d_par") {
            Some(U64Solver::Frontier2DPar)
        } else if same_text(s, "frontier2d_par_unsafe") {
            Some(U64Solver::Frontier2DParUnsafe)
        } else if same_text(s, "frontier2d_fused") {
            Some(U64Solver::Frontier2DFused)
        } else if same_text(s, "frontier2d_sparse") {
            Some(U64Solver::Frontier2DSparse)
        } else if same_text(s, "frontier_stack") {
            Some(U64Solver::FrontierStack)
        } else if same_text(s, "block_refine") {
            Some(U64Solver::BlockRefine)
        } else if same_text(s, "pyramid_sweep") {
            Some(U64Solver::PyramidSweep)
        } else if same_text(s, "frontier3d_tau") {
            Some(U64Solver::Frontier3DTau { tau: 0 })
        } else if same_text(s, "frontier3d_topk") {
            Some(U64Solver::Frontier3DTopK { k: u32::MAX })
        } else if same_text(s, "frontier3d_coarse_theta") {
            Some(U64Solver::Frontier3DCoarseTheta { step: 1 })
        } else if same_text(s, "stream_mimic") {
            Some(U64Solver::StreamMimic)
        } else if same_text(s, "prio_ls") {
            Some(U64Solver::PriorityLabelSetting)
        } else if same_text(s, "prio_lc") {
            Some(U64Solver::PriorityLabelCorrecting)
        } else {
            None
        }
    }
}

/// Outcome of a solve: iterations (sweeps or frontier rounds), cost decreases
/// counted, and whether the solver reached its fixed point.
#[derive(Clone, Copy, Debug)]
pub struct U64SolveStats {
    pub iters: u32,
    pub updates: u64,
    pub converged: bool,
}

/// The states after `k` full sweeps.
pub open spec fn sweeps(states: Seq<State>, actions: Seq<Action>, k: nat, nx: int, ny: int, nt: int) -> Seq<State>
    decreases k,
{
    if k == 0 {
        states
    } else {
        sweep_spec(sweeps(states, actions, (k - 1) as nat, nx, ny, nt), actions, nx, ny, nt)
    }
}

/// No reached cost of `b` differs from `a`.
pub open spec fn reached_stable(a: Seq<State>, b: Seq<State>) -> bool {
    forall|i: int| 0 <= i < b.len() && #[trigger] b[i].total_cost < REACH_THRESH ==> b[i].total_cost == a[i].total_cost
}

/// Repeated sweeps keep the layout invariant.
pub proof fn lemma_sweeps_keep(states: Seq<State>, actions: Seq<Action>, k: nat, nx: int, ny: int, nt: int)
    requires
        states_ok(states, nx, ny, nt),
        actions.len() <= usize::MAX,
    ensures
        states_ok(sweeps(states, actions, k, nx, ny, nt), nx, ny, nt),
        sweeps(states, actions, k, nx, ny, nt).len() == states.len(),
    decreases k,
{
    if k > 0 {
        lemma_sweeps_keep(states, actions, (k - 1) as nat, nx, ny, nt);
        let p = sweeps(states, actions, (k - 1) as nat, nx, ny, nt);
        lemma_sweep_keeps(p, actions, p.len() as int, nx, ny, nt);
    }
}

/// Full sweeps until no reached cost changes, for at most `max_iter` sweeps (at
/// least one).  Gives `(sweeps, 0, converged)`; `converged` says the last sweep
/// left every reached cost unchanged, which no earlier sweep did.
pub fn reference_solve(vi: &mut StateSpace, max_iter: u32) -> (r: (u32, u64, bool))
    requires
        old(vi).wf(),
    ensures
        final(vi).wf(),
        final(vi).actions@ == old(vi).actions@,
        final(vi).cell_num_x == old(vi).cell_num_x,
        final(vi).cell_num_y == old(vi).cell_num_y,
        final(vi).cell_num_t == old(vi).cell_num_t,
        1 <= r.0,
        r.0 <= max_iter || r.0 == 1,
        r.1 == 0,
        final(vi).states@ == sweeps(old(vi).states@, old(vi).actions@, r.0 as nat,
            old(vi).cell_num_x as int, old(vi).cell_num_y as int, old(vi).cell_num_t as int),
        r.2 == reached_stable(
            sweeps(old(vi).states@, old(vi).actions@, (r.0 - 1) as nat, old(vi).cell_num_x as int, old(vi).cell_num_y as int, old(vi).cell_num_t as int),
            final(vi).states@),
        !r.2 ==> r.0 >= max_iter,
        forall|j: nat| 1 <= j < r.0 ==> !#[trigger] reached_stable(
            sweeps(old(vi).states@, old(vi).actions@, (j - 1) as nat, old(vi).cell_num_x as int, old(vi).cell_num_y as int, old(vi).cell_num_t as int),
            sweeps(old(vi).states@, old(vi).actions@, j, old(vi).cell_num_x as int, old(vi).cell_num_y as int, old(vi).cell_num_t as int)),
        agree_ok(old(vi).states@, old(vi).actions@, old(vi).cell_num_t as int) && reached_below(old(vi).states@)
            && above_best(old(vi).states@, old(vi).actions@, old(vi).cell_num_x as int, old(vi).cell_num_y as int,
                old(vi).cell_num_t as int) && r.2 ==> exists|gs: Seq<State>|
            #[trigger] greatest_settled(gs, old(vi).states@, old(vi).actions@, old(vi).cell_num_x as int,
                old(vi).cell_num_y as int, old(vi).cell_num_t as int)
            && forall|k: int| 0 <= k < old(vi).states@.len() ==> (#[trigger] final(vi).states@[k]).total_cost == gs[k].total_cost,
{
    let ghost s0 = vi.states@;
    let ghost acts = vi.actions@;
    let ghost nx = vi.cell_num_x as int;
    let ghost ny = vi.cell_num_y as int;
    let ghost nt = vi.cell_num_t as int;
    let n = vi.states.len();
    let n_actions = vi.actions.len();
    let mut prev: Vec<u64> = Vec::new();
    let mut i: usize = 0;
    while i < n
        invariant
            0 <= i <= n,
            n == vi.states@.len(),
            prev@.len() == i,
            forall|j: int| 0 <= j < i ==> prev@[j] == #[trigger] vi.states@[j].total_cost,
        decreases n - i,
    {
        prev.push(vi.states[i].total_cost);
        i += 1;
    }
    let mut iters: u32 = 0;
    let converged: bool;
    loop
        invariant_except_break
            iters == 0 || iters < max_iter,
            forall|j: nat| 1 <= j <= iters ==> !#[trigger] reached_stable(sweeps(s0, acts, (j - 1) as nat, nx, ny, nt), sweeps(s0, acts, j, nx, ny, nt)),
        invariant
            vi.wf(),
            vi.actions@ == acts,
            acts == old(vi).actions@,
            s0 == old(vi).states@,
            n_actions == acts.len(),
            vi.cell_num_x == nx,
            vi.cell_num_y == ny,
            vi.cell_num_t == nt,
            nx == old(vi).cell_num_x,
            ny == old(vi).cell_num_y,
            nt == old(vi).cell_num_t,
            n == s0.len(),
            states_ok(s0, nx, ny, nt),
            vi.states@ == sweeps(s0, acts, iters as nat, nx, ny, nt),
            prev@.len() == n,
            forall|j: int| 0 <= j < n ==> prev@[j] == #[trigger] vi.states@[j].total_cost,
        ensures
            vi.wf(),
            vi.actions@ == acts,
            vi.cell_num_x == nx,
            vi.cell_num_y == ny,
            vi.cell_num_t == nt,
            1 <= iters,
            iters <= max_iter || iters == 1,
            vi.states@ == sweeps(s0, acts, iters as nat, nx, ny, nt),
            converged == reached_stable(sweeps(s0, acts, (iters - 1) as nat, nx, ny, nt), vi.states@),
            !converged ==> iters >= max_iter,
            forall|j: nat| 1 <= j < iters ==> !#[trigger] reached_stable(sweeps(s0, acts, (j - 1) as nat, nx, ny, nt), sweeps(s0, acts, j, nx, ny, nt)),
        decreases max_iter - iters,
    {
        let ghost before = vi.states@;
        vi.sweep();
        iters += 1;
        proof {
            lemma_sweeps_keep(s0, acts, iters as nat, nx, ny, nt);
        }
        let mut changed = false;
        let mut k: usize = 0;
        while k < n
            invariant
                0 <= k <= n,
                n == vi.states@.len(),
                n == before.len(),
                prev@.len() == n,
                forall|j: int| k <= j < n ==> prev@[j] == #[trigger] before[j].total_cost,
                forall|j: int| 0 <= j < k ==> prev@[j] == #[trigger] vi.states@[j].total_cost,
                changed == exists|j: int| 0 <= j < k && #[trigger] vi.states@[j].total_cost < REACH_THRESH
                    && vi.states@[j].total_cost != before[j].total_cost,
            decreases n - k,
        {
            let c = vi.states[k].total_cost;
            if c < REACH_THRESH && c != prev[k] {
                changed = true;
            }
            prev.set(k, c);
            k += 1;
        }
        proof {
            assert(changed == !reached_stable(before, vi.states@));
        }
        if !changed {
            converged = true;
            break;
        }
        if iters >= max_iter {
            converged = false;
            break;
        }
    }
    proof {
        let r = (iters, 0u64, converged);
        let acts = vi.actions@;
        let nx = vi.cell_num_x as int;
        let ny = vi.cell_num_y as int;
        let nt = vi.cell_num_t as int;
        if agree_ok(s0, acts, nt) && reached_below(s0) && above_best(s0, acts, nx, ny, nt) && converged {
            assert(reference_result(s0, acts, nx, ny, nt, max_iter, vi.states@, r));
            let gs = lemma_reference_greatest(s0, acts, nx, ny, nt, max_iter, vi.states@, r);
            assert(greatest_settled(gs, s0, acts, nx, ny, nt));
        }
    }
    (iters, 0, converged)
}

/// The reference solver from `s0` ran `r.0` sweeps ending in `s2`: the sweeps
/// before the last changed some reached cost, and `r.2` says whether the last did not.
pub open spec fn reference_result(s0: Seq<State>, acts: Seq<Action>, nx: int, ny: int, nt: int, max_iter: u32,
    s2: Seq<State>, r: (u32, u64, bool)) -> bool {
    &&& 1 <= r.0
    &&& (r.0 <= max_iter || r.0 == 1)
    &&& r.1 == 0
    &&& s2 == sweeps(s0, acts, r.0 as nat, nx, ny, nt)
    &&& r.2 == reached_stable(sweeps(s0, acts, (r.0 - 1) as nat, nx, ny, nt), s2)
    &&& (!r.2 ==> r.0 >= max_iter)
    &&& forall|j: nat| 1 <= j < r.0 ==> !#[trigger] reached_stable(sweeps(s0, acts, (j - 1) as nat, nx, ny, nt),
        sweeps(s0, acts, j, nx, ny, nt))
}

/// This library holds a solver for `solver`.
pub open spec fn solver_available(solver: U64Solver) -> bool {
    match solver {
        U64Solver::Reference | U64Solver::Frontier3D | U64Solver::Frontier2D | U64Solver::Frontier2DPad
            | U64Solver::Frontier2DPar | U64Solver::Frontier2DParUnsafe | U64Solver::Frontier2DFused | U64Solver::Frontier2DSparse
            | U64Solver::BlockRefine | U64Solver::Frontier3DTopK { .. } => true,
        U64Solver::Frontier3DTau { tau } => tau == 0,
        U64Solver::Frontier3DCoarseTheta { step } => step == 1,
        _ => false,
    }
}

/// What the solver `solver` needs of the space `vi`.
pub open spec fn solve_ok(vi: StateSpace, solver: U64Solver, max_iter: u32) -> bool {
    let nx = vi.cell_num_x;
    let ny = vi.cell_num_y;
    let nt = vi.cell_num_t;
    let acts = vi.actions@;
    &&& vi.wf()
    &&& match solver {
        U64Solver::Frontier3D | U64Solver::Frontier3DTau { .. } | U64Solver::Frontier3DCoarseTheta { .. } =>
            frontier_ok(acts) && fits3(nx as u32, ny as u32, nt as u32),
        U64Solver::Frontier2D => frontier_ok(acts) && fits2(nx as u32, ny as u32),
        U64Solver::Frontier2DPad | U64Solver::Frontier2DPar | U64Solver::Frontier2DParUnsafe | U64Solver::Frontier2DFused
            => frontier_ok(acts) && fits2(nx as u32, ny as u32)
            && forall|d: (int, int, int)| is_displacement(acts, nt as int, d)
                ==> #[trigger] geom_fits(nx as int, ny as int, nt as int, d.0, d.1),
        U64Solver::Frontier2DSparse => frontier_ok(acts) && 1 <= nt <= 64 && (nx > 0 || ny <= 1)
            && fits2(nx as u32, ny as u32)
            && forall|d: (int, int, int)| is_displacement(acts, nt as int, d)
                ==> #[trigger] geom_fits(nx as int, ny as int, nt as int, d.0, d.1),
        U64Solver::BlockRefine => offsets_ok(acts, nt as int),
        U64Solver::Frontier3DTopK { .. } => frontier_ok(acts) && probs_ok(acts) && fits3(nx as u32, ny as u32, nt as u32),
        _ => true,
    }
}

/// A run of the 3-D frontier solver (the top-k one when `mode` holds `k`)
/// from `s0` ended in `s2` with stats `r` within `max_iter` rounds.
pub open spec fn solved3(s0: Seq<State>, acts: Seq<Action>, nx: int, ny: int, nt: int, max_iter: u32, s2: Seq<State>,
    r: (u32, u64, bool), mode: Option<u32>) -> bool {
    r.0 <= max_iter && exists|m: (int, int, int), hist: Seq<Seq<(u32, u32, u32)>>|
        #[trigger] frontier3d_result(s0, acts, nx, ny, nt, m, hist, s2, r.1, r.2, mode)
        && hist.len() == r.0 && (r.2 || r.0 == max_iter)
}

/// A run of the 2-D frontier solver (the padded one when `clamp`) from `s0`
/// ended in `s2` with stats `r` within `max_iter` rounds.
pub open spec fn solved2(s0: Seq<State>, acts: Seq<Action>, nx: int, ny: int, nt: int, max_iter: u32, s2: Seq<State>,
    r: (u32, u64, bool), clamp: bool) -> bool {
    r.0 <= max_iter && exists|m: (int, int, int), hist: Seq<Seq<(u32, u32)>>|
        #[trigger] frontier2d_result(s0, acts, nx, ny, nt, m, hist, s2, r.1, r.2, clamp)
        && hist.len() == r.0 && (r.2 || r.0 == max_iter)
}

/// A run of the Jacobi solver from `s0` ended in `s2` with stats `r` within `max_iter` rounds.
pub open spec fn solved_par(s0: Seq<State>, acts: Seq<Action>, nx: int, ny: int, nt: int, max_iter: u32, s2: Seq<State>,
    r: (u32, u64, bool)) -> bool {
    r.0 <= max_iter && exists|m: (int, int, int), hist: Seq<Seq<(u32, u32)>>|
        #[trigger] par2d_result(s0, acts, nx, ny, nt, m, hist, s2, r.1, r.2)
        && hist.len() == r.0 && (r.2 || r.0 == max_iter)
}

/// A run of the asynchronous solver from `s0` ended in `s2` with stats `r` within `max_iter` rounds.
pub open spec fn solved_gs(s0: Seq<State>, acts: Seq<Action>, nx: int, ny: int, nt: int, max_iter: u32, s2: Seq<State>,
    r: (u32, u64, bool)) -> bool {
    r.0 <= max_iter && exists|m: (int, int, int), hist: Seq<Seq<(u32, u32)>>|
        #[trigger] gs2d_result(s0, acts, nx, ny, nt, m, hist, s2, r.1, r.2)
        && hist.len() == r.0 && (r.2 || r.0 == max_iter)
}

/// A run of the asynchronous fused solver from `s0` ended in `s2` with stats `r` within `max_iter` rounds.
pub open spec fn solved_fused(s0: Seq<State>, acts: Seq<Action>, nx: int, ny: int, nt: int, max_iter: u32, s2: Seq<State>,
    r: (u32, u64, bool)) -> bool {
    r.0 <= max_iter && exists|g: Geom, mt: int, cp0: Seq<u64>, pen: Seq<u64>, ev: Seq<bool>, hist: Seq<Seq<(u32, u32)>>|
        #[trigger] fused_async_result(s0, acts, nx, ny, nt, g, mt, cp0, pen, ev, hist, s2, r.1, r.2)
        && hist.len() == r.0 && (r.2 || r.0 == max_iter)
}

/// A run of the heading-sparse solver from `s0` ended in `s2` with stats `r`.
pub open spec fn solved_sparse(s0: Seq<State>, acts: Seq<Action>, nx: int, ny: int, nt: int, max_iter: u32, s2: Seq<State>,
    r: (u32, u64, bool)) -> bool {
    exists|g: Geom, mt: int, cp0: Seq<u64>, pen: Seq<u64>, ev: Seq<bool>, hist: Seq<Seq<(u32, u32)>>|
        #[trigger] sparse_result(s0, acts, nx, ny, nt, max_iter as int, g, mt, cp0, pen, ev, hist, s2, r.0 as int, r.1 as int, r.2)
}

/// A run of the padded Gauss–Seidel solver from `s0` ended in `s2` with stats `r` within `max_iter` rounds.
pub open spec fn solved_pad(s0: Seq<State>, acts: Seq<Action>, nx: int, ny: int, nt: int, max_iter: u32, s2: Seq<State>,
    r: (u32, u64, bool)) -> bool {
    r.0 <= max_iter && exists|m: (int, int, int), hist: Seq<Seq<(u32, u32)>>|
        #[trigger] frontier2d_result(s0, acts, nx, ny, nt, m, hist, s2, r.1, r.2, true)
        && hist.len() == r.0 && (r.2 || r.0 == max_iter)
}

/// A run of the 2-D frontier solver from `s0` ended in `s2` with stats `r` within `max_iter` rounds.
pub open spec fn solved_frontier2d(s0: Seq<State>, acts: Seq<Action>, nx: int, ny: int, nt: int, max_iter: u32, s2: Seq<State>,
    r: (u32, u64, bool)) -> bool {
    r.0 <= max_iter && exists|m: (int, int, int), hist: Seq<Seq<(u32, u32)>>|
        #[trigger] frontier2d_result(s0, acts, nx, ny, nt, m, hist, s2, r.1, r.2, false)
        && hist.len() == r.0 && (r.2 || r.0 == max_iter)
}

/// A run of the 3-D frontier solver from `s0` ended in `s2` with stats `r` within `max_iter` rounds.
pub open spec fn solved_frontier3d(s0: Seq<State>, acts: Seq<Action>, nx: int, ny: int, nt: int, max_iter: u32, s2: Seq<State>,
    r: (u32, u64, bool)) -> bool {
    r.0 <= max_iter && exists|m: (int, int, int), hist: Seq<Seq<(u32, u32, u32)>>|
        #[trigger] frontier3d_result(s0, acts, nx, ny, nt, m, hist, s2, r.1, r.2, None)
        && hist.len() == r.0 && (r.2 || r.0 == max_iter)
}

/// A run of the block solver from `s0` ended in `s2` with stats `r`.
pub open spec fn solved_block(s0: Seq<State>, acts: Seq<Action>, nx: int, ny: int, nt: int, max_iter: u32, s2: Seq<State>,
    r: (u32, u64, bool)) -> bool {
    exists|m: (int, int, int)| is_displacement(acts, nt, m)
        && block_refine_done(#[trigger] block_refine_result(s0, acts, nx, ny, nt, 8, 2, max_iter as nat, m), s2, r)
}

/// `s2` and `st` are what the solver `solver` gives on `s0` with budget `max_iter`.
pub open spec fn solved(s0: Seq<State>, acts: Seq<Action>, nx: int, ny: int, nt: int, solver: U64Solver, max_iter: u32,
    s2: Seq<State>, st: U64SolveStats) -> bool {
    let r = (st.iters, st.updates, st.converged);
    match solver {
        U64Solver::Reference => reference_result(s0, acts, nx, ny, nt, max_iter, s2, r),
        U64Solver::Frontier3D | U64Solver::Frontier3DTau { .. } | U64Solver::Frontier3DCoarseTheta { .. } =>
            solved3(s0, acts, nx, ny, nt, max_iter, s2, r, None),
        U64Solver::Frontier3DTopK { k } => solved3(s0, acts, nx, ny, nt, max_iter, s2, r, Some(k)),
        U64Solver::Frontier2D => solved2(s0, acts, nx, ny, nt, max_iter, s2, r, false),
        U64Solver::Frontier2DPad => solved2(s0, acts, nx, ny, nt, max_iter, s2, r, true),
        U64Solver::Frontier2DPar => solved_par(s0, acts, nx, ny, nt, max_iter, s2, r),
        U64Solver::Frontier2DParUnsafe => solved_gs(s0, acts, nx, ny, nt, max_iter, s2, r),
        U64Solver::Frontier2DFused => solved_fused(s0, acts, nx, ny, nt, max_iter, s2, r),
        U64Solver::Frontier2DSparse => solved_sparse(s0, acts, nx, ny, nt, max_iter, s2, r),
        U64Solver::BlockRefine => solved_block(s0, acts, nx, ny, nt, max_iter, s2, r),
        _ => false,
    }
}

/// Solves `vi` with `solver` within `max_iter` iterations.  The threshold and
/// coarse-heading variants with their no-op parameters (`tau = 0`, `step = 1`)
/// are the 3-D frontier solver.  `None`, with `vi` unchanged, for a solver
/// this library does not hold: the SoA, stack, pyramid, stream and priority
/// solvers, and the threshold and coarse-heading variants with other parameters.
pub fn solve(vi: &mut StateSpace, solver: U64Solver, max_iter: u32) -> (r: Option<U64SolveStats>)
    requires
        solve_ok(*old(vi), solver, max_iter),
    ensures
        r is Some <==> solver_available(solver),
        final(vi).actions@ == old(vi).actions@,
        final(vi).cell_num_x == old(vi).cell_num_x,
        final(vi).cell_num_y == old(vi).cell_num_y,
        final(vi).cell_num_t == old(vi).cell_num_t,
        r is None ==> *final(vi) == *old(vi),
        r matches Some(st) ==> solved(old(vi).states@, old(vi).actions@, old(vi).cell_num_x as int, old(vi).cell_num_y as int,
            old(vi).cell_num_t as int, solver, max_iter, final(vi).states@, st),
{
    let res = match solver {
        U64Solver::Reference => reference_solve(vi, max_iter),
        U64Solver::Frontier3D => frontier3d_solve(vi, max_iter),
        U64Solver::Frontier2D => frontier2d_solve(vi, max_iter),
        U64Solver::Frontier2DPad => frontier2d_pad_solve(vi, max_iter),
        U64Solver::Frontier2DPar => frontier2d_par_solve(vi, max_iter),
        U64Solver::Frontier2DParUnsafe => frontier2d_par_unsafe_solve(vi, max_iter),
        U64Solver::Frontier2DFused => frontier2d_fused_solve(vi, max_iter),
        U64Solver::Frontier2DSparse => frontier2d_sparse_solve(vi, max_iter),
        U64Solver::BlockRefine => block_refine_solve(vi, max_iter),
        U64Solver::Frontier3DTopK { k } => frontier3d_topk_solve(vi, k, max_iter),
        U64Solver::Frontier3DTau { tau } => {
            if tau != 0 {
                return None;
            }
            frontier3d_solve(vi, max_iter)
        },
        U64Solver::Frontier3DCoarseTheta { step } => {
            if step != 1 {
                return None;
            }
            frontier3d_solve(vi, max_iter)
        },
        _ => {
            return None;
        },
    };
    Some(U64SolveStats { iters: res.0, updates: res.1, converged: res.2 })
}

/// The Jacobi and the asynchronous 2-D frontier solvers agree: started from the
/// same states with capped costs, an outcome for every action and heading,
/// non-negative weights of total at most `PROB_BASE` and costs that stay clear
/// of `u64` wrap-around ([`agree_ok`]), two runs that both converged end with
/// the same costs and the same actions, whatever the iteration budgets.  Each
/// ends at the greatest state below the start that the clamped update cannot
/// lower, which the order of the updates does not change.
pub proof fn lemma_par_gs_agree(s0: Seq<State>, acts: Seq<Action>, nx: int, ny: int, nt: int,
    max1: u32, s1: Seq<State>, r1: (u32, u64, bool), max2: u32, s2: Seq<State>, r2: (u32, u64, bool))
    requires
        agree_ok(s0, acts, nt),
        solved_par(s0, acts, nx, ny, nt, max1, s1, r1),
        solved_gs(s0, acts, nx, ny, nt, max2, s2, r2),
        r1.2,
        r2.2,
    ensures
        s1 == s2,
        exists|g: Seq<State>| #[trigger] greatest_settled(g, s0, acts, nx, ny, nt) && s1 == policy_of(g, acts, nx, ny, nt),
{
    let (m1, h1) = choose|m: (int, int, int), hist: Seq<Seq<(u32, u32)>>|
        #[trigger] par2d_result(s0, acts, nx, ny, nt, m, hist, s1, r1.1, r1.2) && hist.len() == r1.0 && (r1.2 || r1.0 == max1);
    let (m2, h2) = choose|m: (int, int, int), hist: Seq<Seq<(u32, u32)>>|
        #[trigger] gs2d_result(s0, acts, nx, ny, nt, m, hist, s2, r2.1, r2.2) && hist.len() == r2.0 && (r2.2 || r2.0 == max2);
    let f0 = seed_view2(s0, nx, ny, nt);
    let g1 = jrounds2(s0, acts, f0, h1, nx, ny, nt).0;
    let g2 = gs_rounds(s0, acts, f0, h2, nx, ny, nt).0;
    assert(greatest_settled(g1, s0, acts, nx, ny, nt));
    assert(greatest_settled(g2, s0, acts, nx, ny, nt));
    lemma_greatest_unique(g1, g2, s0, acts, nx, ny, nt);
}

/// The Jacobi and the fused asynchronous 2-D frontier solvers agree: from the
/// same laid-out states and actions meeting [`agree_ok`], two runs that both
/// converged give every state the same action and every free cell the same
/// cost, whatever the iteration budgets.
pub proof fn lemma_par_fused_agree(s0: Seq<State>, acts: Seq<Action>, nx: int, ny: int, nt: int,
    max1: u32, s1: Seq<State>, r1: (u32, u64, bool), max2: u32, s2: Seq<State>, r2: (u32, u64, bool))
    requires
        agree_ok(s0, acts, nt),
        states_ok(s0, nx, ny, nt),
        actions_ok(acts, nx, ny, nt),
        solved_par(s0, acts, nx, ny, nt, max1, s1, r1),
        solved_fused(s0, acts, nx, ny, nt, max2, s2, r2),
        r1.2,
        r2.2,
    ensures
        s1.len() == s2.len(),
        forall|k: int| 0 <= k < s1.len() ==> (#[trigger] s2[k]).optimal_action == s1[k].optimal_action,
        forall|k: int| 0 <= k < s1.len() && s0[k].free ==> (#[trigger] s2[k]).total_cost == s1[k].total_cost,
{
    let (m1, h1) = choose|m: (int, int, int), hist: Seq<Seq<(u32, u32)>>|
        #[trigger] par2d_result(s0, acts, nx, ny, nt, m, hist, s1, r1.1, r1.2) && hist.len() == r1.0 && (r1.2 || r1.0 == max1);
    let (g, mt, cp0, pen, ev, h2) = choose|g: Geom, mt: int, cp0: Seq<u64>, pen: Seq<u64>, ev: Seq<bool>, hist: Seq<Seq<(u32, u32)>>|
        #[trigger] fused_async_result(s0, acts, nx, ny, nt, g, mt, cp0, pen, ev, hist, s2, r2.1, r2.2)
        && hist.len() == r2.0 && (r2.2 || r2.0 == max2);
    let f0 = seed_view2(s0, nx, ny, nt);
    let g1 = jrounds2(s0, acts, f0, h1, nx, ny, nt).0;
    assert(greatest_settled(g1, s0, acts, nx, ny, nt));
    let g2 = lemma_fused_greatest(s0, acts, nx, ny, nt, g, mt, cp0, pen, ev, h2, s2, r2.1);
    lemma_greatest_unique(g1, g2, s0, acts, nx, ny, nt);
    assert forall|k: int| 0 <= k < s1.len() && s0[k].free implies (#[trigger] s2[k]).total_cost == s1[k].total_cost by {
        assert(g1[k] == (State { total_cost: g1[k].total_cost, ..s0[k] }));
    }
}

/// The sparse solver never undercuts the Jacobi solver: from the same
/// laid-out states and actions meeting [`agree_ok`], a converged Jacobi run
/// and any run of the sparse solver, converged or not, leave every free cell
/// with a sparse cost between the Jacobi cost and the starting cost.
pub proof fn lemma_sparse_not_below_par(s0: Seq<State>, acts: Seq<Action>, nx: int, ny: int, nt: int,
    max1: u32, s1: Seq<State>, r1: (u32, u64, bool), max2: u32, s2: Seq<State>, r2: (u32, u64, bool))
    requires
        agree_ok(s0, acts, nt),
        states_ok(s0, nx, ny, nt),
        actions_ok(acts, nx, ny, nt),
        solved_par(s0, acts, nx, ny, nt, max1, s1, r1),
        r1.2,
        solved_sparse(s0, acts, nx, ny, nt, max2, s2, r2),
    ensures
        s2.len() == s0.len(),
        forall|k: int| 0 <= k < s0.len() && s0[k].free ==> s1[k].total_cost <= (#[trigger] s2[k]).total_cost <= s0[k].total_cost,
{
    let (m1, h1) = choose|m: (int, int, int), hist: Seq<Seq<(u32, u32)>>|
        #[trigger] par2d_result(s0, acts, nx, ny, nt, m, hist, s1, r1.1, r1.2) && hist.len() == r1.0 && (r1.2 || r1.0 == max1);
    let (g, mt, cp0, pen, ev, h2) = choose|g: Geom, mt: int, cp0: Seq<u64>, pen: Seq<u64>, ev: Seq<bool>, hist: Seq<Seq<(u32, u32)>>|
        #[trigger] sparse_result(s0, acts, nx, ny, nt, max2 as int, g, mt, cp0, pen, ev, hist, s2, r2.0 as int, r2.1 as int, r2.2);
    let f0 = seed_view2(s0, nx, ny, nt);
    let g1 = jrounds2(s0, acts, f0, h1, nx, ny, nt).0;
    assert(greatest_settled(g1, s0, acts, nx, ny, nt));
    lemma_sparse_above_settled(s0, acts, nx, ny, nt, max2 as int, g, mt, cp0, pen, ev, h2, s2, r2.0 as int, r2.1 as int, r2.2, g1);
    assert forall|k: int| 0 <= k < s0.len() && s0[k].free implies s1[k].total_cost <= (#[trigger] s2[k]).total_cost <= s0[k].total_cost by {
        assert(s1[k].total_cost == g1[k].total_cost);
    }
}

/// The Jacobi and the sparse 2-D frontier solvers agree: from the same
/// laid-out states and actions meeting [`agree_ok`], with at most 64
/// headings, two runs that both converged give every state the same action
/// and every free cell the same cost, whatever the iteration budgets.
pub proof fn lemma_par_sparse_agree(s0: Seq<State>, acts: Seq<Action>, nx: int, ny: int, nt: int,
    max1: u32, s1: Seq<State>, r1: (u32, u64, bool), max2: u32, s2: Seq<State>, r2: (u32, u64, bool))
    requires
        agree_ok(s0, acts, nt),
        states_ok(s0, nx, ny, nt),
        actions_ok(acts, nx, ny, nt),
        1 <= nt <= 64,
        solved_par(s0, acts, nx, ny, nt, max1, s1, r1),
        solved_sparse(s0, acts, nx, ny, nt, max2, s2, r2),
        r1.2,
        r2.2,
    ensures
        s1.len() == s2.len(),
        forall|k: int| 0 <= k < s1.len() ==> (#[trigger] s2[k]).optimal_action == s1[k].optimal_action,
        forall|k: int| 0 <= k < s1.len() && s0[k].free ==> (#[trigger] s2[k]).total_cost == s1[k].total_cost,
{
    let (m1, h1) = choose|m: (int, int, int), hist: Seq<Seq<(u32, u32)>>|
        #[trigger] par2d_result(s0, acts, nx, ny, nt, m, hist, s1, r1.1, r1.2) && hist.len() == r1.0 && (r1.2 || r1.0 == max1);
    let (g, mt, cp0, pen, ev, h2) = choose|g: Geom, mt: int, cp0: Seq<u64>, pen: Seq<u64>, ev: Seq<bool>, hist: Seq<Seq<(u32, u32)>>|
        #[trigger] sparse_result(s0, acts, nx, ny, nt, max2 as int, g, mt, cp0, pen, ev, hist, s2, r2.0 as int, r2.1 as int, r2.2);
    let f0 = seed_view2(s0, nx, ny, nt);
    let g1 = jrounds2(s0, acts, f0, h1, nx, ny, nt).0;
    assert(greatest_settled(g1, s0, acts, nx, ny, nt));
    let g2 = lemma_sparse_greatest(s0, acts, nx, ny, nt, max2 as int, g, mt, cp0, pen, ev, h2, s2, r2.0 as int, r2.1 as int);
    lemma_greatest_unique(g1, g2, s0, acts, nx, ny, nt);
    assert forall|k: int| 0 <= k < s1.len() && s0[k].free implies (#[trigger] s2[k]).total_cost == s1[k].total_cost by {
        assert(g1[k] == (State { total_cost: g1[k].total_cost, ..s0[k] }));
    }
}

/// The Jacobi and the padded Gauss–Seidel 2-D frontier solvers agree on every
/// cost: from the same laid-out states and actions meeting [`agree_ok`], where
/// no cell that takes part in the update starts below its clamped best cost
/// (as at the usual start, where all of them are unreached), two runs that
/// both converged leave every state with the same cost.  The padded solver
/// writes the clamped best cost even where it is higher, so from a start below
/// its own update it may raise a cost that the Jacobi solver keeps.
pub proof fn lemma_par_pad_agree(s0: Seq<State>, acts: Seq<Action>, nx: int, ny: int, nt: int,
    max1: u32, s1: Seq<State>, r1: (u32, u64, bool), max2: u32, s2: Seq<State>, r2: (u32, u64, bool))
    requires
        agree_ok(s0, acts, nt),
        states_ok(s0, nx, ny, nt),
        above_best(s0, acts, nx, ny, nt),
        solved_par(s0, acts, nx, ny, nt, max1, s1, r1),
        solved_pad(s0, acts, nx, ny, nt, max2, s2, r2),
        r1.2,
        r2.2,
    ensures
        s1.len() == s2.len(),
        forall|k: int| 0 <= k < s1.len() ==> (#[trigger] s2[k]).total_cost == s1[k].total_cost,
{
    let (m1, h1) = choose|m: (int, int, int), hist: Seq<Seq<(u32, u32)>>|
        #[trigger] par2d_result(s0, acts, nx, ny, nt, m, hist, s1, r1.1, r1.2) && hist.len() == r1.0 && (r1.2 || r1.0 == max1);
    let (m2, h2) = choose|m: (int, int, int), hist: Seq<Seq<(u32, u32)>>|
        #[trigger] frontier2d_result(s0, acts, nx, ny, nt, m, hist, s2, r2.1, r2.2, true) && hist.len() == r2.0 && (r2.2 || r2.0 == max2);
    let f0 = seed_view2(s0, nx, ny, nt);
    let g1 = jrounds2(s0, acts, f0, h1, nx, ny, nt).0;
    assert(greatest_settled(g1, s0, acts, nx, ny, nt));
    let g2 = lemma_pad_greatest(s0, acts, nx, ny, nt, m2, h2, s2, r2.1);
    lemma_greatest_unique(g1, g2, s0, acts, nx, ny, nt);
    assert forall|k: int| 0 <= k < s1.len() implies (#[trigger] s2[k]).total_cost == s1[k].total_cost by {
        assert(s1[k].total_cost == g1[k].total_cost);
    }
}

/// The Jacobi and the 2-D frontier solvers agree on every cost where no
/// outcome is ever unreached: from the same laid-out states and actions
/// meeting [`agree_ok`], where every free cell starts reached and none that
/// takes part in the update starts below its clamped best cost, two runs that
/// both converged leave every state with the same cost.  From other starts the
/// 2-D frontier solver weighs `MAX_COST` in wrapping `u64` arithmetic and can
/// reach a cell that the Jacobi solver leaves unreached.
pub proof fn lemma_par_frontier2d_agree(s0: Seq<State>, acts: Seq<Action>, nx: int, ny: int, nt: int,
    max1: u32, s1: Seq<State>, r1: (u32, u64, bool), max2: u32, s2: Seq<State>, r2: (u32, u64, bool))
    requires
        agree_ok(s0, acts, nt),
        states_ok(s0, nx, ny, nt),
        all_reached(s0),
        above_best(s0, acts, nx, ny, nt),
        solved_par(s0, acts, nx, ny, nt, max1, s1, r1),
        solved_frontier2d(s0, acts, nx, ny, nt, max2, s2, r2),
        r1.2,
        r2.2,
    ensures
        s1.len() == s2.len(),
        forall|k: int| 0 <= k < s1.len() ==> (#[trigger] s2[k]).total_cost == s1[k].total_cost,
{
    let (m2, h2) = choose|m: (int, int, int), hist: Seq<Seq<(u32, u32)>>|
        #[trigger] frontier2d_result(s0, acts, nx, ny, nt, m, hist, s2, r2.1, r2.2, false) && hist.len() == r2.0 && (r2.2 || r2.0 == max2);
    lemma_unclamped_is_padded(s0, acts, nx, ny, nt, m2, h2, s2, r2.1);
    assert(solved_pad(s0, acts, nx, ny, nt, max2, s2, r2));
    lemma_par_pad_agree(s0, acts, nx, ny, nt, max1, s1, r1, max2, s2, r2);
}

/// The Jacobi solver and the full-sweep reference solver agree on every cost
/// where no outcome is ever unreached: from the same laid-out states and
/// actions meeting [`agree_ok`], where every free cell starts reached below
/// [`REACH_THRESH`] and none that takes part in the update starts below its
/// clamped best cost, a converged Jacobi run and a converged reference run
/// leave every state with the same cost.  From other starts the reference
/// update weighs `MAX_COST` in wrapping `u64` arithmetic and can reach a cell
/// that the Jacobi solver leaves unreached.
pub proof fn lemma_par_reference_agree(s0: Seq<State>, acts: Seq<Action>, nx: int, ny: int, nt: int,
    max1: u32, s1: Seq<State>, r1: (u32, u64, bool), max2: u32, s2: Seq<State>, r2: (u32, u64, bool))
    requires
        agree_ok(s0, acts, nt),
        states_ok(s0, nx, ny, nt),
        reached_below(s0),
        above_best(s0, acts, nx, ny, nt),
        solved_par(s0, acts, nx, ny, nt, max1, s1, r1),
        reference_result(s0, acts, nx, ny, nt, max2, s2, r2),
        r1.2,
        r2.2,
    ensures
        s1.len() == s2.len(),
        forall|k: int| 0 <= k < s1.len() ==> (#[trigger] s2[k]).total_cost == s1[k].total_cost,
{
    let (m1, h1) = choose|m: (int, int, int), hist: Seq<Seq<(u32, u32)>>|
        #[trigger] par2d_result(s0, acts, nx, ny, nt, m, hist, s1, r1.1, r1.2) && hist.len() == r1.0 && (r1.2 || r1.0 == max1);
    let f0 = seed_view2(s0, nx, ny, nt);
    let g1 = jrounds2(s0, acts, f0, h1, nx, ny, nt).0;
    assert(greatest_settled(g1, s0, acts, nx, ny, nt));
    let g2 = lemma_reference_greatest(s0, acts, nx, ny, nt, max2, s2, r2);
    lemma_greatest_unique(g1, g2, s0, acts, nx, ny, nt);
    assert forall|k: int| 0 <= k < s1.len() implies (#[trigger] s2[k]).total_cost == s1[k].total_cost by {
        assert(s1[k].total_cost == g1[k].total_cost);
    }
}

/// The Jacobi and the 3-D frontier solvers agree on every cost where no
/// outcome is ever unreached: from the same laid-out states and actions
/// meeting [`agree_ok`], where every free cell starts reached and none that
/// takes part in the update starts below its clamped best cost, two runs that
/// both converged leave every state with the same cost.
pub proof fn lemma_par_frontier3d_agree(s0: Seq<State>, acts: Seq<Action>, nx: int, ny: int, nt: int,
    max1: u32, s1: Seq<State>, r1: (u32, u64, bool), max2: u32, s2: Seq<State>, r2: (u32, u64, bool))
    requires
        agree_ok(s0, acts, nt),
        states_ok(s0, nx, ny, nt),
        all_reached(s0),
        above_best(s0, acts, nx, ny, nt),
        solved_par(s0, acts, nx, ny, nt, max1, s1, r1),
        solved_frontier3d(s0, acts, nx, ny, nt, max2, s2, r2),
        r1.2,
        r2.2,
    ensures
        s1.len() == s2.len(),
        forall|k: int| 0 <= k < s1.len() ==> (#[trigger] s2[k]).total_cost == s1[k].total_cost,
{
    let (m1, h1) = choose|m: (int, int, int), hist: Seq<Seq<(u32, u32)>>|
        #[trigger] par2d_result(s0, acts, nx, ny, nt, m, hist, s1, r1.1, r1.2) && hist.len() == r1.0 && (r1.2 || r1.0 == max1);
    let (m2, h2) = choose|m: (int, int, int), hist: Seq<Seq<(u32, u32, u32)>>|
        #[trigger] frontier3d_result(s0, acts, nx, ny, nt, m, hist, s2, r2.1, r2.2, None) && hist.len() == r2.0 && (r2.2 || r2.0 == max2);
    let f0 = seed_view2(s0, nx, ny, nt);
    let g1 = jrounds2(s0, acts, f0, h1, nx, ny, nt).0;
    assert(greatest_settled(g1, s0, acts, nx, ny, nt));
    let g2 = lemma_frontier3d_greatest(s0, acts, nx, ny, nt, m2, h2, s2, r2.1);
    lemma_greatest_unique(g1, g2, s0, acts, nx, ny, nt);
    assert forall|k: int| 0 <= k < s1.len() implies (#[trigger] s2[k]).total_cost == s1[k].total_cost by {
        assert(s1[k].total_cost == g1[k].total_cost);
    }
}

/// The full-sweep reference solver and the 3-D frontier solver agree on every
/// cost where no outcome is ever unreached: from the same laid-out states and
/// actions meeting [`agree_ok`], where every free cell starts reached below
/// [`REACH_THRESH`] and none that takes part in the update starts below its
/// clamped best cost, two runs that both converged leave every state with the
/// same cost.  From other starts both weigh `MAX_COST` in wrapping `u64`
/// arithmetic, in different orders.
pub proof fn lemma_reference_frontier3d_agree(s0: Seq<State>, acts: Seq<Action>, nx: int, ny: int, nt: int,
    max1: u32, s1: Seq<State>, r1: (u32, u64, bool), max2: u32, s2: Seq<State>, r2: (u32, u64, bool))
    requires
        agree_ok(s0, acts, nt),
        states_ok(s0, nx, ny, nt),
        reached_below(s0),
        above_best(s0, acts, nx, ny, nt),
        reference_result(s0, acts, nx, ny, nt, max1, s1, r1),
        solved_frontier3d(s0, acts, nx, ny, nt, max2, s2, r2),
        r1.2,
        r2.2,
    ensures
        s1.len() == s2.len(),
        forall|k: int| 0 <= k < s1.len() ==> (#[trigger] s2[k]).total_cost == s1[k].total_cost,
{
    assert(all_reached(s0));
    let (m2, h2) = choose|m: (int, int, int), hist: Seq<Seq<(u32, u32, u32)>>|
        #[trigger] frontier3d_result(s0, acts, nx, ny, nt, m, hist, s2, r2.1, r2.2, None) && hist.len() == r2.0 && (r2.2 || r2.0 == max2);
    let g1 = lemma_reference_greatest(s0, acts, nx, ny, nt, max1, s1, r1);
    let g2 = lemma_frontier3d_greatest(s0, acts, nx, ny, nt, m2, h2, s2, r2.1);
    lemma_greatest_unique(g1, g2, s0, acts, nx, ny, nt);
}

/// The Jacobi solver and the outcome-pruned 3-D frontier solver agree on
/// every cost where no outcome is pruned and none is ever unreached: from the
/// same laid-out states and actions meeting [`agree_ok`], with no action
/// holding more than `k` outcomes from any heading, where every free cell
/// starts reached and none that takes part in the update starts below its
/// clamped best cost, two runs that both converged leave every state with the
/// same cost.
pub proof fn lemma_par_topk_agree(s0: Seq<State>, acts: Seq<Action>, nx: int, ny: int, nt: int, k: u32,
    max1: u32, s1: Seq<State>, r1: (u32, u64, bool), s2: Seq<State>, r2: (u32, u64, bool))
    requires
        agree_ok(s0, acts, nt),
        states_ok(s0, nx, ny, nt),
        actions_ok(acts, nx, ny, nt),
        acts.len() <= usize::MAX,
        all_within_k(acts, k),
        all_reached(s0),
        above_best(s0, acts, nx, ny, nt),
        solved_par(s0, acts, nx, ny, nt, max1, s1, r1),
        exists|m: (int, int, int), hist: Seq<Seq<(u32, u32, u32)>>|
            #[trigger] frontier3d_result(s0, acts, nx, ny, nt, m, hist, s2, r2.1, r2.2, Some(k)),
        r1.2,
        r2.2,
    ensures
        s1.len() == s2.len(),
        forall|i: int| 0 <= i < s1.len() ==> (#[trigger] s2[i]).total_cost == s1[i].total_cost,
{
    let (m1, h1) = choose|m: (int, int, int), hist: Seq<Seq<(u32, u32)>>|
        #[trigger] par2d_result(s0, acts, nx, ny, nt, m, hist, s1, r1.1, r1.2) && hist.len() == r1.0 && (r1.2 || r1.0 == max1);
    let (m2, h2) = choose|m: (int, int, int), hist: Seq<Seq<(u32, u32, u32)>>|
        #[trigger] frontier3d_result(s0, acts, nx, ny, nt, m, hist, s2, r2.1, r2.2, Some(k));
    let f0 = seed_view3(s0, nx, ny, nt);
    assert forall|r: int, i: int| 0 <= r < h2.len() && 0 <= i < h2[r].len() implies
        (#[trigger] h2[r][i]).0 < nx && h2[r][i].1 < ny && h2[r][i].2 < nt by {
        let p = rounds3(s0, acts, f0, h2.take(r), nx, ny, nt, Some(k));
        lemma_listed3_ok(h2[r], dilate_stack(p.1, nx, ny, nt, m2.0, m2.1, m2.2), nx, ny, nt);
    }
    lemma_topk_full_is_exact(s0, acts, nx, ny, nt, m2, h2, s2, r2.1, r2.2, k);
    let f2 = seed_view2(s0, nx, ny, nt);
    let g1 = jrounds2(s0, acts, f2, h1, nx, ny, nt).0;
    assert(greatest_settled(g1, s0, acts, nx, ny, nt));
    let g2 = lemma_frontier3d_greatest(s0, acts, nx, ny, nt, m2, h2, s2, r2.1);
    lemma_greatest_unique(g1, g2, s0, acts, nx, ny, nt);
    assert forall|i: int| 0 <= i < s1.len() implies (#[trigger] s2[i]).total_cost == s1[i].total_cost by {
        assert(s1[i].total_cost == g1[i].total_cost);
    }
}

} // verus!
