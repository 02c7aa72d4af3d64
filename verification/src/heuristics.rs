//! Search heuristics consumed by the external branch-and-bound engine:
//! the fixed left-to-right variable ordering, and two interchangeable
//! diagram-width policies.

use vstd::prelude::*;

use crate::instance::MAX_NODES;
use crate::model::TSPTW;
use crate::state::State;

verus! {

/// The fixed variable ordering: at any frontier node the unassigned
/// variables are exactly those at the state's depth and beyond, in the
/// original index order.
#[derive(Clone, Copy, Debug)]
pub struct LoadVarsFromDepth {
    pub nb_vars: usize,
}

impl LoadVarsFromDepth {
    pub fn new(pb: &TSPTW) -> (r: LoadVarsFromDepth)
        ensures
            r.nb_vars == pb.instance.nb_nodes,
    {
        LoadVarsFromDepth { nb_vars: pb.instance.nb_nodes }
    }

    /// The unassigned variable indices of a frontier node: `depth` up to
    /// `nb_vars`, in increasing order.
    pub fn variables(&self, state: &State) -> (r: Vec<usize>)
        requires
            state.depth <= self.nb_vars,
        ensures
            r@.len() == self.nb_vars - state.depth,
            forall|k: int| 0 <= k < r@.len() ==> (#[trigger] r@[k]) == state.depth + k,
    {
        let mut vars: Vec<usize> = Vec::new();
        let mut i: usize = state.depth;
        while i < self.nb_vars
            invariant
                state.depth <= i <= self.nb_vars,
                vars@.len() == i - state.depth,
                forall|k: int| 0 <= k < vars@.len() ==> (#[trigger] vars@[k]) == state.depth + k,
            decreases self.nb_vars - i,
        {
            vars.push(i);
            i = i + 1;
        }
        vars
    }
}

/// Width policy that grows with the search depth: a layer may hold up to
/// `(1 + depth) * nb_vars` nodes.
#[derive(Clone, Copy, Debug)]
pub struct IncreasingWithDepth {
    pub nb_vars: usize,
}

impl IncreasingWithDepth {
    pub fn new(pb: &TSPTW) -> (r: IncreasingWithDepth)
        requires
            pb.instance.nb_nodes <= MAX_NODES,
        ensures
            r.nb_vars == pb.instance.nb_nodes,
            r.nb_vars <= MAX_NODES,
    {
        IncreasingWithDepth { nb_vars: pb.instance.nb_nodes }
    }

    /// The maximum layer width when `nb_free` variables are still
    /// unassigned.
    pub fn max_width(&self, nb_free: usize) -> (r: usize)
        requires
            nb_free <= self.nb_vars,
            self.nb_vars <= MAX_NODES,
        ensures
            r == (1 + self.nb_vars - nb_free) * self.nb_vars,
    {
        let depth = self.nb_vars - nb_free;
        let factor = 1 + depth;
        proof {
            assert(factor * self.nb_vars <= (MAX_NODES + 1) * MAX_NODES) by (nonlinear_arith)
                requires
                    factor <= MAX_NODES + 1,
                    self.nb_vars <= MAX_NODES,
                    0 <= factor,
                    0 <= self.nb_vars,
            ;
        }
        factor * self.nb_vars
    }
}

/// Width policy proportional to the number of unassigned variables, scaled
/// by a caller-supplied multiplier.
#[derive(Clone, Copy, Debug)]
pub struct TimesUnassigned {
    pub multiplier: usize,
}

impl TimesUnassigned {
    pub fn new(multiplier: usize) -> (r: TimesUnassigned)
        ensures
            r.multiplier == multiplier,
    {
        TimesUnassigned { multiplier }
    }

    /// The maximum layer width when `nb_free` variables are still
    /// unassigned.
    pub fn max_width(&self, nb_free: usize) -> (r: usize)
        requires
            self.multiplier * nb_free <= usize::MAX,
        ensures
            r == self.multiplier * nb_free,
    {
        self.multiplier * nb_free
    }
}

} // verus!
