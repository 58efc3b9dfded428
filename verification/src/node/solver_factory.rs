//! Maps a solver name to a [`U64Solver`].
use vstd::prelude::*;
use crate::reference::solvers::{U64Solver, same_text, solver_named, solver_label, lemma_solver_names};

verus! {

/// The solver a node parameter names, if any; the approximate solvers get
/// their default parameters, and `pyramid` is an alias of `pyramid_sweep`.
pub open spec fn node_solver(s: Seq<char>) -> Option<U64Solver> {
    if s == "reference"@ {
        Some(U64Solver::Reference)
    } else if s == "frontier3d"@ {
        Some(U64Solver::Frontier3D)
    } else if s == "frontier3d_topk"@ {
        Some(U64Solver::Frontier3DTopK { k: u32::MAX })
    } else if s == "frontier3d_tau"@ {
        Some(U64Solver::Frontier3DTau { tau: 0 })
    } else if s == "frontier3d_coarse_theta"@ {
        Some(U64Solver::Frontier3DCoarseTheta { step: 1 })
    } else if s == "frontier2d"@ {
        Some(U64Solver::Frontier2D)
    } else if s == "frontier_stack"@ {
        Some(U64Solver::FrontierStack)
    } else if s == "block_refine"@ {
        Some(U64Solver::BlockRefine)
    } else if s == "pyramid"@ || s == "pyramid_sweep"@ {
        Some(U64Solver::PyramidSweep)
    } else if s == "stream_mimic"@ {
        Some(U64Solver::StreamMimic)
    } else {
        None
    }
}

/// Every name the node accepts selects the solver that the library's own name
/// table gives it, and that solver's name is the name asked for; the one
/// exception is the alias `pyramid`, which selects the pyramid sweep.
pub proof fn lemma_node_names(s: Seq<char>, v: U64Solver)
    ensures
        node_solver(s) == Some(v) ==> (s == "pyramid"@ && v == U64Solver::PyramidSweep)
            || (solver_named(s) == Some(v) && s == solver_label(v)),
{
    if s == "pyramid"@ {
        reveal_strlit("pyramid");
        reveal_strlit("reference");
        reveal_strlit("frontier3d");
        reveal_strlit("frontier3d_topk");
        reveal_strlit("frontier3d_tau");
        reveal_strlit("frontier3d_coarse_theta");
        reveal_strlit("frontier2d");
        reveal_strlit("frontier_stack");
        reveal_strlit("block_refine");
        assert("pyramid"@.len() != "reference"@.len());
        assert("pyramid"@.len() != "frontier3d"@.len());
        assert("pyramid"@.len() != "frontier3d_topk"@.len());
        assert("pyramid"@.len() != "frontier3d_tau"@.len());
        assert("pyramid"@.len() != "frontier3d_coarse_theta"@.len());
        assert("pyramid"@.len() != "frontier2d"@.len());
        assert("pyramid"@.len() != "frontier_stack"@.len());
        assert("pyramid"@.len() != "block_refine"@.len());
    }
    if node_solver(s) == Some(v) && s != "pyramid"@ {
        assert(s == solver_label(v));
        lemma_solver_names(s, v);
    }
}

/// The solvers the node offers: the exact ones, the approximate ones (run with
/// their default parameters), the stack, block, pyramid and stream solvers.
pub open spec fn node_offers(v: U64Solver) -> bool {
    match v {
        U64Solver::Reference | U64Solver::Frontier3D | U64Solver::Frontier3DTopK { .. } | U64Solver::Frontier3DTau { .. }
            | U64Solver::Frontier3DCoarseTheta { .. } | U64Solver::Frontier2D | U64Solver::FrontierStack
            | U64Solver::BlockRefine | U64Solver::PyramidSweep | U64Solver::StreamMimic => true,
        _ => false,
    }
}

/// Every name of an offered solver is accepted by the node and selects what
/// the library's name table selects, and the alias `pyramid` selects the
/// pyramid sweep.
pub proof fn lemma_node_accepts(s: Seq<char>, v: U64Solver)
    ensures
        solver_named(s) == Some(v) && node_offers(v) ==> node_solver(s) == Some(v),
        node_solver("pyramid"@) == Some(U64Solver::PyramidSweep),
{
    reveal_strlit("reference");
    reveal_strlit("frontier3d");
    reveal_strlit("frontier3d_topk");
    reveal_strlit("frontier3d_tau");
    reveal_strlit("frontier3d_coarse_theta");
    reveal_strlit("frontier2d");
    reveal_strlit("frontier_stack");
    reveal_strlit("block_refine");
    reveal_strlit("pyramid");
    reveal_strlit("pyramid_sweep");
    reveal_strlit("stream_mimic");
    if solver_named(s) == Some(v) && node_offers(v) {
        lemma_solver_names(s, v);
        match v {
            U64Solver::Reference => {},
            U64Solver::Frontier3D => {
                assert("frontier3d"@.len() != "reference"@.len());
            },
            U64Solver::Frontier3DTopK { .. } => {
                assert("frontier3d_topk"@.len() != "reference"@.len());
                assert("frontier3d_topk"@.len() != "frontier3d"@.len());
            },
            U64Solver::Frontier3DTau { .. } => {
                assert("frontier3d_tau"@.len() != "reference"@.len());
                assert("frontier3d_tau"@.len() != "frontier3d"@.len());
                assert("frontier3d_tau"@.len() != "frontier3d_topk"@.len());
            },
            U64Solver::Frontier3DCoarseTheta { .. } => {
                assert("frontier3d_coarse_theta"@.len() != "reference"@.len());
                assert("frontier3d_coarse_theta"@.len() != "frontier3d"@.len());
                assert("frontier3d_coarse_theta"@.len() != "frontier3d_topk"@.len());
                assert("frontier3d_coarse_theta"@.len() != "frontier3d_tau"@.len());
            },
            U64Solver::Frontier2D => {
                assert("frontier2d"@.len() != "reference"@.len());
                assert("frontier2d"@[8] != "frontier3d"@[8]);
                assert("frontier2d"@.len() != "frontier3d_topk"@.len());
                assert("frontier2d"@.len() != "frontier3d_tau"@.len());
                assert("frontier2d"@.len() != "frontier3d_coarse_theta"@.len());
            },
            U64Solver::FrontierStack => {
                assert("frontier_stack"@.len() != "reference"@.len());
                assert("frontier_stack"@.len() != "frontier3d"@.len());
                assert("frontier_stack"@.len() != "frontier3d_topk"@.len());
                assert("frontier_stack"@[8] != "frontier3d_tau"@[8]);
                assert("frontier_stack"@.len() != "frontier3d_coarse_theta"@.len());
                assert("frontier_stack"@.len() != "frontier2d"@.len());
            },
            U64Solver::BlockRefine => {
                assert("block_refine"@.len() != "reference"@.len());
                assert("block_refine"@.len() != "frontier3d"@.len());
                assert("block_refine"@.len() != "frontier3d_topk"@.len());
                assert("block_refine"@.len() != "frontier3d_tau"@.len());
                assert("block_refine"@.len() != "frontier3d_coarse_theta"@.len());
                assert("block_refine"@.len() != "frontier2d"@.len());
                assert("block_refine"@.len() != "frontier_stack"@.len());
            },
            U64Solver::PyramidSweep => {
                assert("pyramid_sweep"@.len() != "reference"@.len());
                assert("pyramid_sweep"@.len() != "frontier3d"@.len());
                assert("pyramid_sweep"@.len() != "frontier3d_topk"@.len());
                assert("pyramid_sweep"@.len() != "frontier3d_tau"@.len());
                assert("pyramid_sweep"@.len() != "frontier3d_coarse_theta"@.len());
                assert("pyramid_sweep"@.len() != "frontier2d"@.len());
                assert("pyramid_sweep"@.len() != "frontier_stack"@.len());
                assert("pyramid_sweep"@.len() != "block_refine"@.len());
                assert("pyramid_sweep"@.len() != "pyramid"@.len());
            },
            U64Solver::StreamMimic => {
                assert("stream_mimic"@.len() != "reference"@.len());
                assert("stream_mimic"@.len() != "frontier3d"@.len());
                assert("stream_mimic"@.len() != "frontier3d_topk"@.len());
                assert("stream_mimic"@.len() != "frontier3d_tau"@.len());
                assert("stream_mimic"@.len() != "frontier3d_coarse_theta"@.len());
                assert("stream_mimic"@.len() != "frontier2d"@.len());
                assert("stream_mimic"@.len() != "frontier_stack"@.len());
                assert("stream_mimic"@[0] != "block_refine"@[0]);
                assert("stream_mimic"@.len() != "pyramid"@.len());
                assert("stream_mimic"@.len() != "pyramid_sweep"@.len());
            },
            _ => {},
        }
    }
    assert("pyramid"@.len() != "reference"@.len());
    assert("pyramid"@.len() != "frontier3d"@.len());
    assert("pyramid"@.len() != "frontier3d_topk"@.len());
    assert("pyramid"@.len() != "frontier3d_tau"@.len());
    assert("pyramid"@.len() != "frontier3d_coarse_theta"@.len());
    assert("pyramid"@.len() != "frontier2d"@.len());
    assert("pyramid"@.len() != "frontier_stack"@.len());
    assert("pyramid"@.len() != "block_refine"@.len());
}

/// The message for an unknown solver name.
pub open spec fn unknown_solver_message(s: Seq<char>) -> Seq<char> {
    "unknown solver: "@ + s + ". Supported: reference | frontier3d | frontier3d_topk | frontier3d_tau | frontier3d_coarse_theta | frontier2d | frontier_stack | block_refine | pyramid | stream_mimic"@
}

/// The solver named by the node parameter `name`, or the message listing the supported names.
pub fn make_solver(name: &str) -> (r: Result<U64Solver, String>)
    ensures
        match node_solver(name@) {
            Some(v) => r == Ok::<U64Solver, String>(v),
            None => r matches Err(m) && m@ == unknown_solver_message(name@),
        },
        r matches Ok(v) ==> (name@ == "pyramid"@ && v == U64Solver::PyramidSweep)
            || (solver_named(name@) == Some(v) && name@ == solver_label(v)),
        forall|v: U64Solver| solver_named(name@) == Some(v) && #[trigger] node_offers(v) ==> r == Ok::<U64Solver, String>(v),
        name@ == "pyramid"@ ==> r == Ok::<U64Solver, String>(U64Solver::PyramidSweep),
{
    proof {
        if let Some(v) = solver_named(name@) {
            lemma_node_accepts(name@, v);
        }
        lemma_node_accepts(name@, U64Solver::Reference);
        if let Some(v) = node_solver(name@) {
            lemma_node_names(name@, v);
        }
    }
    if same_text(name, "reference") {
        Ok(U64Solver::Reference)
    } else if same_text(name, "frontier3d") {
        Ok(U64Solver::Frontier3D)
    } else if same_text(name, "frontier3d_topk") {
        Ok(U64Solver::Frontier3DTopK { k: u32::MAX })
    } else if same_text(name, "frontier3d_tau") {
        Ok(U64Solver::Frontier3DTau { tau: 0 })
    } else if same_text(name, "frontier3d_coarse_theta") {
        Ok(U64Solver::Frontier3DCoarseTheta { step: 1 })
    } else if same_text(name, "frontier2d") {
        Ok(U64Solver::Frontier2D)
    } else if same_text(name, "frontier_stack") {
        Ok(U64Solver::FrontierStack)
    } else if same_text(name, "block_refine") {
        Ok(U64Solver::BlockRefine)
    } else if same_text(name, "pyramid") || same_text(name, "pyramid_sweep") {
        Ok(U64Solver::PyramidSweep)
    } else if same_text(name, "stream_mimic") {
        Ok(U64Solver::StreamMimic)
    } else {
        let mut m = String::from_str("unknown solver: ");
        m.append(name);
        m.append(". Supported: reference | frontier3d | frontier3d_topk | frontier3d_tau | frontier3d_coarse_theta | frontier2d | frontier_stack | block_refine | pyramid | stream_mimic");
        Err(m)
    }
}

} // verus!
