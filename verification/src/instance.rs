//! The immutable problem instance: node count, travel-distance matrix and
//! per-node visiting window. It is supplied once, validated at the boundary,
//! and then shared read-only by the model and the relaxation.

use vstd::prelude::*;

verus! {

/// Largest admissible travel distance or window bound. Keeping every
/// distance and window at or below this cap guarantees that every sum the
/// core forms (at most one per node, plus the elapsed time) fits in 64 bits.
pub const MAX_TIME: u64 = 0x1000_0000_0000;

/// Largest admissible node count (node ids must fit the bit-set widths and
/// keep width products inside `usize`).
pub const MAX_NODES: usize = 0xFFFF;

/// The interval during which a node may legally be visited.
#[derive(Clone, Copy, PartialEq, Eq, Structural, Debug)]
pub struct TimeWindow {
    pub earliest: u64,
    pub latest: u64,
}

/// A TSPTW instance: `nb_nodes` nodes (node 0 is the depot), an asymmetric
/// travel-distance matrix and one time window per node.
pub struct TSPTWInstance {
    pub nb_nodes: usize,
    pub distances: Vec<Vec<u64>>,
    pub timewindows: Vec<TimeWindow>,
}

impl TSPTWInstance {
    /// Distance from node `i` to node `j`.
    pub open spec fn d(self, i: int, j: int) -> int {
        self.distances@[i]@[j] as int
    }

    /// Time window of node `i`.
    pub open spec fn tw(self, i: int) -> TimeWindow {
        self.timewindows@[i]
    }

    /// A validated instance: square matrix, windows in order, and every
    /// distance and bound within `MAX_TIME` so that arithmetic cannot wrap.
    pub open spec fn wf(self) -> bool {
        &&& 1 <= self.nb_nodes <= MAX_NODES
        &&& self.distances@.len() == self.nb_nodes
        &&& forall|i: int| 0 <= i < self.nb_nodes ==> (#[trigger] self.distances@[i])@.len()
            == self.nb_nodes
        &&& forall|i: int, j: int| 0 <= i < self.nb_nodes && 0 <= j < self.nb_nodes
            ==> (#[trigger] self.distances@[i]@[j]) <= MAX_TIME
        &&& self.timewindows@.len() == self.nb_nodes
        &&& forall|i: int| 0 <= i < self.nb_nodes
            ==> (#[trigger] self.timewindows@[i]).earliest <= self.timewindows@[i].latest
                && self.timewindows@[i].latest <= MAX_TIME
    }

    /// Builds an instance after checking it is well formed; `None` exactly
    /// when some dimension, distance or window violates `wf`.
    pub fn new(distances: Vec<Vec<u64>>, timewindows: Vec<TimeWindow>) -> (r: Option<
        TSPTWInstance,
    >)
        ensures
            match r {
                Some(inst) => inst.wf() && inst.nb_nodes == distances@.len()
                    && inst.distances == distances && inst.timewindows == timewindows,
                None => !(TSPTWInstance {
                    nb_nodes: distances@.len() as usize,
                    distances,
                    timewindows,
                }).wf(),
            },
    {
        let n = distances.len();
        if n < 1 || n > MAX_NODES {
            return None;
        }
        if timewindows.len() != n {
            return None;
        }
        for i in 0..n
            invariant
                n == distances@.len(),
                forall|k: int| 0 <= k < i ==> (#[trigger] distances@[k])@.len() == n,
                forall|k: int, j: int| 0 <= k < i && 0 <= j < n
                    ==> (#[trigger] distances@[k]@[j]) <= MAX_TIME,
        {
            if distances[i].len() != n {
                return None;
            }
            for j in 0..n
                invariant
                    n == distances@.len(),
                    0 <= i < n,
                    distances@[i as int]@.len() == n,
                    forall|k: int| 0 <= k < i ==> (#[trigger] distances@[k])@.len() == n,
                    forall|k: int, l: int| 0 <= k < i && 0 <= l < n
                        ==> (#[trigger] distances@[k]@[l]) <= MAX_TIME,
                    forall|l: int| 0 <= l < j ==> (#[trigger] distances@[i as int]@[l]) <= MAX_TIME,
            {
                if distances[i][j] > MAX_TIME {
                    return None;
                }
            }
        }
        for i in 0..n
            invariant
                n == timewindows@.len(),
                forall|k: int| 0 <= k < i ==> (#[trigger] timewindows@[k]).earliest
                    <= timewindows@[k].latest && timewindows@[k].latest <= MAX_TIME,
        {
            if timewindows[i].earliest > timewindows[i].latest || timewindows[i].latest > MAX_TIME {
                return None;
            }
        }
        Some(TSPTWInstance { nb_nodes: n, distances, timewindows })
    }

    /// Distance lookup with the bounds the matrix guarantees.
    pub fn distance(&self, i: usize, j: usize) -> (r: u64)
        requires
            self.wf(),
            i < self.nb_nodes,
            j < self.nb_nodes,
        ensures
            r as int == self.d(i as int, j as int),
            r <= MAX_TIME,
    {
        self.distances[i][j]
    }

    /// Time-window lookup.
    pub fn window(&self, i: usize) -> (r: TimeWindow)
        requires
            self.wf(),
            i < self.nb_nodes,
        ensures
            r == self.tw(i as int),
            r.earliest <= r.latest <= MAX_TIME,
    {
        self.timewindows[i]
    }
}

} // verus!
