//! States, transitions and actions of the integer value-iteration model.
use vstd::prelude::*;

verus! {

/// One outcome of an action: a cell offset, an absolute heading index and a
/// fixed-point probability weight.
#[derive(Clone, Copy, Debug, PartialEq, Eq)]
pub struct StateTransition {
    pub dix: i32,
    pub diy: i32,
    /// Absolute heading index of the outcome (not an offset).
    pub dit: i32,
    pub prob: i32,
}

impl StateTransition {
    /// An outcome with the given offsets and weight.
    pub fn new(dix: i32, diy: i32, dit: i32, prob: i32) -> (r: Self)
        ensures
            r == (StateTransition { dix, diy, dit, prob }),
    {
        StateTransition { dix, diy, dit, prob }
    }
}

/// One cell `(ix, iy, it)` of the grid with its cost-to-go and its policy.
#[derive(Clone, Copy, Debug, PartialEq, Eq)]
pub struct State {
    pub ix: i32,
    pub iy: i32,
    pub it: i32,
    /// Expected cost to the goal, in units of `PROB_BASE`.
    pub total_cost: u64,
    pub penalty: u64,
    pub local_penalty: u64,
    /// The cell is traversable.
    pub free: bool,
    /// The cell lies in the goal region.
    pub final_state: bool,
    /// Index of the best action, once one was found.
    pub optimal_action: Option<usize>,
}

/// A robot action with its outcomes for every source heading:
/// `state_transitions[it]` lists the outcomes from heading `it`.
pub struct Action {
    pub name: String,
    pub id: i32,
    pub state_transitions: Vec<Vec<StateTransition>>,
}

impl Action {
    /// An action with the given outcome lists.
    pub fn new(name: String, id: i32, state_transitions: Vec<Vec<StateTransition>>) -> (r: Self)
        ensures
            r.id == id,
            r.name@ == name@,
            r.state_transitions@ == state_transitions@,
    {
        Action { name, id, state_transitions }
    }
}

} // verus!
