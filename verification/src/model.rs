//! The dynamic-programming formulation of the TSPTW: variable count,
//! initial state, per-state domains, the deterministic transition and the
//! (negated) transition cost that a maximizing search engine consumes.

use vstd::prelude::*;

use crate::bits::{bits_of, bit_width, idx_below, inc_elems, bs_new, bs_set, bs_get, bs_clone};
use crate::instance::{TSPTWInstance, MAX_TIME};
use crate::state::{ElapsedTime, Position, State, norm_range};

verus! {

/// A decision: visit node `value` at step `variable`.
#[derive(Clone, Copy, PartialEq, Eq, Structural, Debug)]
pub struct Decision {
    pub variable: usize,
    pub value: usize,
}

/// Minimum of `d(t, j)` over the candidates `t < k` in `cands`
/// (`u64::MAX` when no candidate lies below `k`).
pub open spec fn min_dist_upto(inst: TSPTWInstance, cands: Set<int>, j: int, k: int) -> int
    decreases k,
{
    if k <= 0 {
        u64::MAX as int
    } else {
        let rest = min_dist_upto(inst, cands, j, k - 1);
        if cands.contains(k - 1) && inst.d(k - 1, j) < rest {
            inst.d(k - 1, j)
        } else {
            rest
        }
    }
}

/// Maximum of `d(t, j)` over the candidates `t < k` in `cands`
/// (`0` when no candidate lies below `k`).
pub open spec fn max_dist_upto(inst: TSPTWInstance, cands: Set<int>, j: int, k: int) -> int
    decreases k,
{
    if k <= 0 {
        0
    } else {
        let rest = max_dist_upto(inst, cands, j, k - 1);
        if cands.contains(k - 1) && inst.d(k - 1, j) > rest {
            inst.d(k - 1, j)
        } else {
            rest
        }
    }
}

/// Shortest travel distance from the current position to node `j`: a direct
/// lookup for a concrete position, the minimum over the candidate set for a
/// virtual one.
pub open spec fn position_min_dist(inst: TSPTWInstance, p: Position, j: int) -> int {
    match p {
        Position::Node(i) => inst.d(i as int, j),
        Position::Virtual(b) => min_dist_upto(inst, bits_of(b), j, inst.nb_nodes as int),
    }
}

/// Longest travel distance from the current position to node `j`.
pub open spec fn position_max_dist(inst: TSPTWInstance, p: Position, j: int) -> int {
    match p {
        Position::Node(i) => inst.d(i as int, j),
        Position::Virtual(b) => max_dist_upto(inst, bits_of(b), j, inst.nb_nodes as int),
    }
}

/// The minimum over a candidate set is at most the distance from any one
/// candidate.
pub proof fn lemma_min_dist_le(inst: TSPTWInstance, cands: Set<int>, j: int, k: int, t: int)
    requires
        cands.contains(t),
        0 <= t < k,
    ensures
        min_dist_upto(inst, cands, j, k) <= inst.d(t, j),
    decreases k,
{
    if t < k - 1 {
        lemma_min_dist_le(inst, cands, j, k - 1, t);
    }
}

/// Without candidates below `k` the running minimum keeps its sentinel.
pub proof fn lemma_min_dist_empty(inst: TSPTWInstance, cands: Set<int>, j: int, k: int)
    requires
        forall|t: int| !(cands.contains(t) && 0 <= t < k),
    ensures
        min_dist_upto(inst, cands, j, k) == u64::MAX as int,
    decreases k,
{
    if k > 0 {
        lemma_min_dist_empty(inst, cands, j, k - 1);
    }
}

/// The minimum over a non-empty candidate set is the distance from one of
/// its members.
pub proof fn lemma_min_dist_attained(inst: TSPTWInstance, cands: Set<int>, j: int, k: int)
    requires
        exists|t: int| cands.contains(t) && 0 <= t < k,
    ensures
        exists|t: int| cands.contains(t) && 0 <= t < k && min_dist_upto(inst, cands, j, k)
            == inst.d(t, j),
    decreases k,
{
    let w = choose|t: int| cands.contains(t) && 0 <= t < k;
    if exists|t: int| cands.contains(t) && 0 <= t < k - 1 {
        lemma_min_dist_attained(inst, cands, j, k - 1);
        let u = choose|t: int| cands.contains(t) && 0 <= t < k - 1 && min_dist_upto(
            inst, cands, j, k - 1) == inst.d(t, j);
        assert(cands.contains(u));
    } else {
        lemma_min_dist_empty(inst, cands, j, k - 1);
        assert(w == k - 1);
        assert(inst.d(k - 1, j) <= u64::MAX as int) by {
            assert(inst.distances@[k - 1]@[j] <= u64::MAX);
        }
    }
}

/// The maximum over candidates drawn from the node range stays within
/// `MAX_TIME` on a well-formed instance.
pub proof fn lemma_max_dist_bound(inst: TSPTWInstance, cands: Set<int>, j: int, k: int)
    requires
        inst.wf(),
        0 <= j < inst.nb_nodes,
        cands.subset_of(idx_below(inst.nb_nodes as int)),
        k <= inst.nb_nodes,
    ensures
        0 <= max_dist_upto(inst, cands, j, k) <= MAX_TIME,
    decreases k,
{
    if k > 0 {
        lemma_max_dist_bound(inst, cands, j, k - 1);
        if cands.contains(k - 1) {
            assert(idx_below(inst.nb_nodes as int).contains(k - 1));
        }
    }
}

/// Whether node `j` can still be reached within its window: the earliest
/// possible arrival does not exceed the window's closing.
pub open spec fn can_move_spec(inst: TSPTWInstance, s: State, j: int) -> bool {
    s.elapsed.spec_earliest() + position_min_dist(inst, s.position, j) <= inst.tw(j).latest
}

/// The arrival-time window when moving from `s` to node `j`: elapsed
/// bounds shifted by the shortest and longest travel, collapsed to an exact
/// point when equal, then clipped against `j`'s window.
pub open spec fn arrival_spec(inst: TSPTWInstance, s: State, j: int) -> ElapsedTime {
    let mina = s.elapsed.spec_earliest() + position_min_dist(inst, s.position, j);
    let maxa = s.elapsed.spec_latest() + position_max_dist(inst, s.position, j);
    norm_range(mina as u64, maxa as u64).spec_clip(inst.tw(j))
}

/// The (negated) cost of moving from `s` to node `j`: shortest travel plus
/// the waiting time from the earliest elapsed bound, negated for the
/// maximizing search.
pub open spec fn cost_spec(inst: TSPTWInstance, s: State, j: int) -> int {
    let travel = position_min_dist(inst, s.position, j);
    let arrive = s.elapsed.spec_earliest() + travel;
    let wait = if arrive < inst.tw(j).earliest {
        inst.tw(j).earliest - arrive
    } else {
        0
    };
    -(travel + wait)
}

/// Every mandatory node can still be reached in time.
pub open spec fn all_must_feasible(inst: TSPTWInstance, s: State) -> bool {
    forall|t: int| s.must().contains(t) ==> can_move_spec(inst, s, t)
}

/// The optional nodes that can still be reached in time.
pub open spec fn feasible_maybes(inst: TSPTWInstance, s: State) -> Set<int> {
    Set::new(|t: int| s.maybe().contains(t) && can_move_spec(inst, s, t))
}

/// The domain of the next decision, in the order the library emits it: the
/// depot alone at the final step (or nothing, when it is out of reach); an
/// empty sequence when some mandatory node is out of reach; otherwise the
/// mandatory nodes followed by the reachable optional nodes, each part in
/// increasing node order.
pub open spec fn domain_seq(inst: TSPTWInstance, s: State) -> Seq<int> {
    let n = inst.nb_nodes as int;
    if s.depth == n - 1 {
        if can_move_spec(inst, s, 0) {
            seq![0int]
        } else {
            Seq::<int>::empty()
        }
    } else if !all_must_feasible(inst, s) {
        Seq::<int>::empty()
    } else {
        inc_elems(s.must(), n) + inc_elems(feasible_maybes(inst, s), n)
    }
}

/// A sequence of node indices viewed as mathematical integers.
pub open spec fn as_ints(s: Seq<usize>) -> Seq<int> {
    s.map_values(|x: usize| x as int)
}

/// Listing an empty set yields the empty sequence.
pub proof fn lemma_inc_elems_empty(s: Set<int>, k: int)
    requires
        s == Set::<int>::empty(),
    ensures
        inc_elems(s, k) == Seq::<int>::empty(),
    decreases k,
{
    if k > 0 {
        lemma_inc_elems_empty(s, k - 1);
    }
}

/// What `transition` returns for decision value `v`: the visited node
/// leaves both pending sets, the position becomes that node, the elapsed
/// time becomes the clipped arrival window, the depth advances, and the
/// tolerance carries over.
pub open spec fn is_transition_of(inst: TSPTWInstance, r: State, s: State, v: usize) -> bool {
    &&& r.position == Position::Node(v)
    &&& r.elapsed == arrival_spec(inst, s, v as int)
    &&& r.must() == s.must().remove(v as int)
    &&& (match (s.maybe_visit, r.maybe_visit) {
        (Some(x), Some(y)) => bits_of(y) == bits_of(x).remove(v as int),
        (None, None) => true,
        _ => false,
    })
    &&& r.depth == s.depth + 1
    &&& r.tolerance == s.tolerance
}

/// The structure encapsulating the TSPTW problem: the instance and the
/// root state of the dynamic program.
pub struct TSPTW {
    pub instance: TSPTWInstance,
    pub initial: State,
}

/// The root state: at the depot with no time elapsed, every other node
/// mandatory, no optional set, no decision taken, no tolerance.
pub open spec fn is_initial_state(s: State, n: int) -> bool {
    &&& s.position == Position::Node(0usize)
    &&& s.elapsed == (ElapsedTime::FixedAmount { duration: 0u64 })
    &&& s.must() == idx_below(n).remove(0)
    &&& bit_width(s.must_visit) == n
    &&& s.maybe_visit is None
    &&& s.depth == 0
    &&& s.tolerance == 0
}

/// The root state of a well-formed instance is itself well formed.
pub proof fn lemma_initial_wf(s: State, n: int)
    requires
        1 <= n,
        is_initial_state(s, n),
    ensures
        s.wf(n),
{
    assert(s.must().subset_of(idx_below(n)));
    assert(!s.must().contains(0));
}

impl TSPTW {
    /// A usable problem: validated instance, and a root state that matches
    /// it.
    pub open spec fn wf(self) -> bool {
        &&& self.instance.wf()
        &&& is_initial_state(self.initial, self.instance.nb_nodes as int)
    }

    /// Builds the problem from a validated instance, constructing the root
    /// state.
    pub fn new(inst: TSPTWInstance) -> (r: TSPTW)
        requires
            inst.wf(),
        ensures
            r.wf(),
            r.instance == inst,
    {
        let n = inst.nb_nodes;
        let mut must = bs_new(n);
        let mut i: usize = 1;
        while i < n
            invariant
                1 <= i,
                i <= n || i == 1,
                n == inst.nb_nodes,
                bit_width(must) == n,
                bits_of(must) == Set::new(|t: int| 1 <= t < i),
            decreases n - i,
        {
            proof {
                assert(Set::new(|t: int| 1 <= t < i + 1) =~= Set::new(|t: int| 1 <= t < i)
                    .insert(i as int));
            }
            bs_set(&mut must, i, true);
            i = i + 1;
        }
        proof {
            assert(Set::new(|t: int| 1 <= t < n) =~= idx_below(n as int).remove(0));
        }
        let initial = State {
            position: Position::Node(0),
            elapsed: ElapsedTime::FixedAmount { duration: 0 },
            must_visit: must,
            maybe_visit: None,
            depth: 0,
            tolerance: 0,
        };
        TSPTW { instance: inst, initial }
    }

    /// One decision per node: the depot return occupies the final slot.
    pub fn nb_vars(&self) -> (r: usize)
        ensures
            r == self.instance.nb_nodes,
    {
        self.instance.nb_nodes
    }

    /// A copy of the root state.
    pub fn initial_state(&self) -> (r: State)
        ensures
            r.equiv(self.initial),
            self.wf() ==> r.wf(self.instance.nb_nodes as int),
    {
        let r = self.initial.clone();
        proof {
            if self.wf() {
                lemma_initial_wf(self.initial, self.instance.nb_nodes as int);
                crate::state::lemma_equiv_wf(r, self.initial, self.instance.nb_nodes as int);
            }
        }
        r
    }

    /// The accumulated objective starts at zero.
    pub fn initial_value(&self) -> (r: i64)
        ensures
            r == 0,
    {
        0
    }

    /// Shortest travel distance from `state`'s position to node `j`.
    pub fn min_distance_to(&self, state: &State, j: usize) -> (r: u64)
        requires
            self.instance.wf(),
            state.wf(self.instance.nb_nodes as int),
            j < self.instance.nb_nodes,
        ensures
            r as int == position_min_dist(self.instance, state.position, j as int),
            r <= MAX_TIME,
    {
        let n = self.instance.nb_nodes;
        match &state.position {
            Position::Node(i) => self.instance.distance(*i, j),
            Position::Virtual(b) => {
                let mut m: u64 = u64::MAX;
                let mut k: usize = 0;
                while k < n
                    invariant
                        k <= n,
                        n == self.instance.nb_nodes,
                        self.instance.wf(),
                        j < n,
                        bit_width(*b) == n,
                        bits_of(*b).subset_of(idx_below(n as int)),
                        m as int == min_dist_upto(self.instance, bits_of(*b), j as int, k as int),
                    decreases n - k,
                {
                    if bs_get(b, k) {
                        let dk = self.instance.distance(k, j);
                        if dk < m {
                            m = dk;
                        }
                    }
                    k = k + 1;
                }
                proof {
                    let cands = bits_of(*b);
                    let w = choose|t: int| cands.contains(t);
                    assert(idx_below(n as int).contains(w));
                    lemma_min_dist_attained(self.instance, cands, j as int, n as int);
                    let t = choose|t: int| cands.contains(t) && 0 <= t < n && min_dist_upto(
                        self.instance, cands, j as int, n as int) == self.instance.d(t, j as int);
                    assert(idx_below(n as int).contains(t));
                }
                m
            },
        }
    }

    /// Longest travel distance from `state`'s position to node `j`.
    pub fn max_distance_to(&self, state: &State, j: usize) -> (r: u64)
        requires
            self.instance.wf(),
            state.wf(self.instance.nb_nodes as int),
            j < self.instance.nb_nodes,
        ensures
            r as int == position_max_dist(self.instance, state.position, j as int),
            r <= MAX_TIME,
    {
        let n = self.instance.nb_nodes;
        match &state.position {
            Position::Node(i) => self.instance.distance(*i, j),
            Position::Virtual(b) => {
                let mut m: u64 = 0;
                let mut k: usize = 0;
                while k < n
                    invariant
                        k <= n,
                        n == self.instance.nb_nodes,
                        self.instance.wf(),
                        j < n,
                        bit_width(*b) == n,
                        bits_of(*b).subset_of(idx_below(n as int)),
                        m as int == max_dist_upto(self.instance, bits_of(*b), j as int, k as int),
                        m <= MAX_TIME,
                    decreases n - k,
                {
                    if bs_get(b, k) {
                        let dk = self.instance.distance(k, j);
                        if dk > m {
                            m = dk;
                        }
                    }
                    k = k + 1;
                }
                m
            },
        }
    }

    /// The arrival-time window at node `j`: the earliest and latest travel
    /// distances added to the elapsed bounds, collapsed to an exact point
    /// when they coincide, then clipped against `j`'s time window.
    pub fn arrival_time(&self, state: &State, j: usize) -> (r: ElapsedTime)
        requires
            self.instance.wf(),
            state.wf(self.instance.nb_nodes as int),
            j < self.instance.nb_nodes,
        ensures
            r == arrival_spec(self.instance, *state, j as int),
    {
        let mind = self.min_distance_to(state, j);
        let maxd = self.max_distance_to(state, j);
        let min_arrival = state.elapsed.earliest() + mind;
        let max_arrival = state.elapsed.latest() + maxd;
        let arrival = if min_arrival == max_arrival {
            ElapsedTime::FixedAmount { duration: min_arrival }
        } else {
            ElapsedTime::FuzzyAmount { earliest: min_arrival, latest: max_arrival }
        };
        let twj = self.instance.window(j);
        arrival.clip_to_window(twj)
    }

    /// Applies a decision: the visited node leaves the pending sets, the
    /// position becomes that node, the elapsed time becomes the clipped
    /// arrival window, and the depth advances.
    pub fn transition(&self, state: &State, d: Decision) -> (r: State)
        requires
            self.instance.wf(),
            state.wf(self.instance.nb_nodes as int),
            state.depth < self.instance.nb_nodes,
            d.value < self.instance.nb_nodes,
            can_move_spec(self.instance, *state, d.value as int),
        ensures
            is_transition_of(self.instance, r, *state, d.value),
            bit_width(r.must_visit) == self.instance.nb_nodes,
            (match r.maybe_visit {
                Some(y) => bit_width(y) == self.instance.nb_nodes,
                None => true,
            }),
            r.depth == state.depth + 1,
            r.wf(self.instance.nb_nodes as int),
    {
        let ghost n = self.instance.nb_nodes as int;
        let mut remaining = bs_clone(&state.must_visit);
        bs_set(&mut remaining, d.value, false);
        let maybes = match &state.maybe_visit {
            Some(b) => {
                let mut m = bs_clone(b);
                bs_set(&mut m, d.value, false);
                Some(m)
            },
            None => None,
        };
        let time = self.arrival_time(state, d.value);
        let r = State {
            position: Position::Node(d.value),
            elapsed: time,
            must_visit: remaining,
            maybe_visit: maybes,
            depth: state.depth + 1,
            tolerance: state.tolerance,
        };
        proof {
            let v = d.value as int;
            let w = self.instance.tw(v);
            assert(state.elapsed.spec_earliest() + position_min_dist(
                self.instance, state.position, v) <= w.latest);
            assert(self.instance.timewindows@[v].earliest <= self.instance.timewindows@[v].latest
                && self.instance.timewindows@[v].latest <= MAX_TIME);
            assert(0 <= position_min_dist(self.instance, state.position, v)) by {
                match state.position {
                    Position::Node(i) => {},
                    Position::Virtual(b) => {
                        lemma_min_dist_attained(self.instance, bits_of(b), v, n);
                    },
                }
            }
            assert(0 <= r.elapsed.spec_earliest() <= MAX_TIME && 0 <= r.elapsed.spec_latest()
                <= MAX_TIME && r.elapsed.normalized()) by {
                match state.position {
                    Position::Node(i) => {},
                    Position::Virtual(b) => {
                        lemma_max_dist_bound(self.instance, bits_of(b), v, n);
                    },
                }
            }
            assert(r.must().subset_of(idx_below(n)));
            assert(r.wf(n));
        }
        r
    }

    /// The (negated) cost of a decision: shortest travel plus any waiting
    /// for the destination's window to open, counted from the earliest
    /// elapsed bound.
    pub fn transition_cost(&self, state: &State, d: Decision) -> (r: i64)
        requires
            self.instance.wf(),
            state.wf(self.instance.nb_nodes as int),
            d.value < self.instance.nb_nodes,
        ensures
            r == cost_spec(self.instance, *state, d.value as int),
    {
        let twj = self.instance.window(d.value);
        let travel = self.min_distance_to(state, d.value);
        let arrive = state.elapsed.earliest() + travel;
        let waiting: u64 = if arrive < twj.earliest {
            twj.earliest - arrive
        } else {
            0
        };
        -((travel + waiting) as i64)
    }

    /// The feasible next moves from `state`: the depot alone at the last
    /// step; otherwise every mandatory node (none may be unreachable, else
    /// the branch is dead and the domain empty) followed by every reachable
    /// optional node, each part in increasing node order.
    pub fn domain_of(&self, state: &State, _var: usize) -> (r: Vec<usize>)
        requires
            self.instance.wf(),
            state.wf(self.instance.nb_nodes as int),
            state.depth < self.instance.nb_nodes,
        ensures
            as_ints(r@) == domain_seq(self.instance, *state),
            forall|k: int| 0 <= k < r@.len() ==> (#[trigger] r@[k]) < self.instance.nb_nodes,
    {
        let n = self.instance.nb_nodes;
        if state.depth == n - 1 {
            if self.can_move_to(state, 0) {
                let mut v: Vec<usize> = Vec::new();
                v.push(0);
                proof {
                    assert(as_ints(v@) =~= seq![0int]);
                }
                v
            } else {
                let v: Vec<usize> = Vec::new();
                proof {
                    assert(as_ints(v@) =~= Seq::<int>::empty());
                }
                v
            }
        } else {
            let mut dom: Vec<usize> = Vec::new();
            let mut i: usize = 0;
            while i < n
                invariant
                    i <= n,
                    n == self.instance.nb_nodes,
                    self.instance.wf(),
                    state.wf(n as int),
                    state.depth < n,
                    state.depth != n - 1,
                    as_ints(dom@) == inc_elems(state.must(), i as int),
                    forall|t: int| 0 <= t < i && state.must().contains(t)
                        ==> can_move_spec(self.instance, *state, t),
                    forall|k: int| 0 <= k < dom@.len() ==> (#[trigger] dom@[k]) < n,
                decreases n - i,
            {
                if bs_get(&state.must_visit, i) {
                    if self.can_move_to(state, i) {
                        let ghost before = dom@;
                        dom.push(i);
                        proof {
                            assert(as_ints(dom@) =~= as_ints(before).push(i as int));
                        }
                    } else {
                        let v: Vec<usize> = Vec::new();
                        proof {
                            assert(!all_must_feasible(self.instance, *state));
                            assert(as_ints(v@) =~= Seq::<int>::empty());
                        }
                        return v;
                    }
                }
                i = i + 1;
            }
            proof {
                assert(all_must_feasible(self.instance, *state)) by {
                    assert forall|t: int| state.must().contains(t) implies can_move_spec(
                        self.instance, *state, t) by {
                        assert(idx_below(n as int).contains(t));
                    }
                }
            }
            match &state.maybe_visit {
                Some(maybes) => {
                    let mut i: usize = 0;
                    while i < n
                        invariant
                            i <= n,
                            n == self.instance.nb_nodes,
                            self.instance.wf(),
                            state.wf(n as int),
                            state.depth < n,
                            state.depth != n - 1,
                            all_must_feasible(self.instance, *state),
                            state.maybe_visit == Some(*maybes),
                            bit_width(*maybes) == n,
                            as_ints(dom@) == inc_elems(state.must(), n as int)
                                + inc_elems(feasible_maybes(self.instance, *state), i as int),
                            forall|k: int| 0 <= k < dom@.len() ==> (#[trigger] dom@[k]) < n,
                        decreases n - i,
                    {
                        if bs_get(maybes, i) {
                            if self.can_move_to(state, i) {
                                let ghost before = dom@;
                                proof {
                                    assert(feasible_maybes(self.instance, *state).contains(
                                        i as int));
                                }
                                dom.push(i);
                                proof {
                                    assert(as_ints(dom@) =~= as_ints(before).push(i as int));
                                }
                            } else {
                                proof {
                                    assert(!feasible_maybes(self.instance, *state).contains(
                                        i as int));
                                }
                            }
                        } else {
                            proof {
                                assert(!feasible_maybes(self.instance, *state).contains(i as int));
                            }
                        }
                        i = i + 1;
                    }
                    dom
                },
                None => {
                    proof {
                        assert(state.maybe() =~= Set::<int>::empty());
                        assert(feasible_maybes(self.instance, *state) =~= Set::<int>::empty());
                        assert(as_ints(dom@) =~= inc_elems(state.must(), n as int)
                            + inc_elems(feasible_maybes(self.instance, *state), n as int)) by {
                            lemma_inc_elems_empty(feasible_maybes(self.instance, *state), n as int);
                        }
                    }
                    dom
                },
            }
        }
    }

    /// Whether the tour can still reach node `j` before its window closes.
    pub fn can_move_to(&self, state: &State, j: usize) -> (r: bool)
        requires
            self.instance.wf(),
            state.wf(self.instance.nb_nodes as int),
            j < self.instance.nb_nodes,
        ensures
            r == can_move_spec(self.instance, *state, j as int),
    {
        let twj = self.instance.window(j);
        let travel = self.min_distance_to(state, j);
        let min_arrival = state.elapsed.add_duration(travel);
        min_arrival.earliest() <= twj.latest
    }
}

} // verus!
