//! The laws the core promises to the search engine, stated and proved over
//! the same spec functions its contracts use.
//!
//! Merging soundness is the standard simulation argument, split into three
//! composable lemmas: the merged state relaxes every input
//! (`lemma_merge_relaxes`); a relaxing state admits every domain choice of
//! the state it relaxes (`lemma_relax_domain`); and taking the same
//! decision on both sides preserves the relaxation
//! (`lemma_relax_transition`). Chaining the last two step by step shows
//! that every decision sequence feasible from any merged-in state stays a
//! legal domain choice from the merged state at every subsequent step.
//!
//! Bound validity (`lemma_estimate_sound`) is proved in the same setting:
//! the optimistic bound of any state — exact or merged — is at least the
//! value of every feasible completion of an exact state it
//! over-approximates, so pruning against it never discards an achievable
//! tour.

use vstd::prelude::*;

use crate::bits::{bits_of, bit_width, idx_below, inc_elems};
use crate::instance::{TSPTWInstance, MAX_TIME};
use crate::state::{ElapsedTime, Position, State};
use crate::model::{min_dist_upto, position_min_dist, can_move_spec, arrival_spec, domain_seq,
    all_must_feasible, feasible_maybes, is_transition_of, lemma_min_dist_le,
    lemma_min_dist_attained};
use crate::relax::{merged_depth, merged_earliest, inter_musts, union_musts, union_maybes,
    merge_amb, is_merge_of, lemma_inter_subset, lemma_union_cands_super,
    lemma_union_musts_super, lemma_union_maybes_super, lemma_merged_elapsed_bounds, card_upto,
    sum_cheapest_upto, cheapest_spec, violates, estimate_spec, lemma_cheapest_le,
    cheapest_vals_upto, count_viol_upto, u64_le, seq_sum64, lemma_seq_sum64_push,
    lemma_cheapest_vals_len, lemma_u64_le_total};

verus! {

/// State `m` over-approximates state `s`: same depth, every candidate
/// position of `s` kept, an elapsed lower bound at most `s`'s, no more
/// mandatory nodes than `s` has, and every node `s` may still visit kept
/// visitable. A state related this way never prunes a continuation of `s`.
pub open spec fn relaxes(m: State, s: State) -> bool {
    &&& m.depth == s.depth
    &&& s.cands().subset_of(m.cands())
    &&& m.elapsed.spec_earliest() <= s.elapsed.spec_earliest()
    &&& m.must().subset_of(s.must())
    &&& s.must().union(s.maybe()).subset_of(m.must().union(m.maybe()))
}

/// The minimum distance over a single node is that node's distance.
pub proof fn lemma_min_dist_singleton(inst: TSPTWInstance, i: int, j: int, k: int)
    requires
        0 <= i < k,
    ensures
        min_dist_upto(inst, Set::<int>::empty().insert(i), j, k) == inst.d(i, j),
    decreases k,
{
    let s = Set::<int>::empty().insert(i);
    if i == k - 1 {
        crate::model::lemma_min_dist_empty(inst, s, j, k - 1);
        assert(inst.distances@[i]@[j] <= u64::MAX);
    } else {
        lemma_min_dist_singleton(inst, i, j, k - 1);
        assert(!s.contains(k - 1));
    }
}

/// A position's minimum distance is the set minimum over its candidates.
pub proof fn lemma_position_min_as_set(inst: TSPTWInstance, p: Position, j: int, n: int)
    requires
        n == inst.nb_nodes,
        match p {
            Position::Node(i) => 0 <= i < n,
            Position::Virtual(b) => true,
        },
    ensures
        position_min_dist(inst, p, j) == min_dist_upto(inst, p.cand_set(), j, n),
{
    match p {
        Position::Node(i) => {
            lemma_min_dist_singleton(inst, i as int, j, n);
        },
        Position::Virtual(b) => {},
    }
}

/// A larger candidate set can only lower the minimum distance.
pub proof fn lemma_min_dist_monotone(inst: TSPTWInstance, a: Set<int>, b: Set<int>, j: int, k: int)
    requires
        a.subset_of(b),
        exists|t: int| a.contains(t) && 0 <= t < k,
    ensures
        min_dist_upto(inst, b, j, k) <= min_dist_upto(inst, a, j, k),
{
    lemma_min_dist_attained(inst, a, j, k);
    let t = choose|t: int| a.contains(t) && 0 <= t < k && min_dist_upto(inst, a, j, k) == inst.d(
        t, j);
    lemma_min_dist_le(inst, b, j, k, t);
}

/// Whatever `s` can still reach in time, a state that relaxes it can too.
pub proof fn lemma_can_move_monotone(inst: TSPTWInstance, m: State, s: State, j: int, n: int)
    requires
        inst.wf(),
        n == inst.nb_nodes,
        m.wf(n),
        s.wf(n),
        relaxes(m, s),
        can_move_spec(inst, s, j),
    ensures
        can_move_spec(inst, m, j),
{
    lemma_position_min_as_set(inst, s.position, j, n);
    lemma_position_min_as_set(inst, m.position, j, n);
    assert(exists|t: int| s.cands().contains(t) && 0 <= t < n) by {
        match s.position {
            Position::Node(i) => {
                assert(s.cands().contains(i as int));
            },
            Position::Virtual(b) => {
                let w = choose|t: int| bits_of(b).contains(t);
                assert(idx_below(n).contains(w));
                assert(s.cands().contains(w));
            },
        }
    }
    lemma_min_dist_monotone(inst, s.cands(), m.cands(), j, n);
}

/// The merged elapsed lower bound is a 64-bit value.
pub proof fn lemma_merged_earliest_range(ss: Seq<State>)
    requires
        ss.len() >= 1,
    ensures
        0 <= merged_earliest(ss) <= u64::MAX,
    decreases ss.len(),
{
    if ss.len() > 1 {
        lemma_merged_earliest_range(ss.drop_last());
    }
}

/// A merged state's depth is the inputs' common depth.
pub proof fn lemma_merged_depth_const(ss: Seq<State>)
    requires
        ss.len() >= 1,
        forall|i: int| 0 <= i < ss.len() ==> (#[trigger] ss[i]).depth == ss[0].depth,
    ensures
        merged_depth(ss) == ss[0].depth,
    decreases ss.len(),
{
    if ss.len() > 1 {
        lemma_merged_depth_const(ss.drop_last());
        assert(ss.drop_last()[0] == ss[0]);
        assert(ss[ss.len() - 1].depth == ss[0].depth);
    }
}

/// Soundness of merging, first piece: the merged state relaxes every
/// input of a group of well-formed states at equal depth.
pub proof fn lemma_merge_relaxes(inst: TSPTWInstance, m: State, ss: Seq<State>, i: int)
    requires
        inst.wf(),
        ss.len() >= 1,
        forall|k: int| 0 <= k < ss.len() ==> (#[trigger] ss[k]).wf(inst.nb_nodes as int),
        forall|k: int| 0 <= k < ss.len() ==> (#[trigger] ss[k]).depth == ss[0].depth,
        is_merge_of(inst.nb_nodes as int, m, ss),
        0 <= i < ss.len(),
    ensures
        relaxes(m, ss[i]),
{
    let n = inst.nb_nodes as int;
    let s = ss[i];
    lemma_merged_depth_const(ss);
    lemma_union_cands_super(ss, i);
    lemma_merged_elapsed_bounds(ss, i);
    lemma_merged_earliest_range(ss);
    lemma_inter_subset(ss, i);
    lemma_union_musts_super(ss, i);
    lemma_union_maybes_super(ss, i);
    assert(m.elapsed.spec_earliest() == merged_earliest(ss));
    let amb = merge_amb(ss);
    if amb.len() == 0 {
        crate::bits::lemma_idx_below_finite(n);
        assert(amb.subset_of(idx_below(n))) by {
            lemma_inter_subset(ss, 0);
            assert(union_musts(ss).union(union_maybes(ss)).subset_of(idx_below(n))) by {
                lemma_union_bounds(ss, n);
            }
        }
        vstd::set_lib::lemma_len_subset(amb, idx_below(n));
        amb.lemma_len0_is_empty();
        assert(s.must().union(s.maybe()).subset_of(m.must().union(m.maybe()))) by {
            assert forall|t: int| s.must().union(s.maybe()).contains(t) implies m.must().union(
                m.maybe()).contains(t) by {
                assert(union_musts(ss).union(union_maybes(ss)).contains(t));
                assert(!amb.contains(t));
                assert(inter_musts(ss).contains(t));
            }
        }
    } else {
        assert(s.must().union(s.maybe()).subset_of(m.must().union(m.maybe()))) by {
            assert forall|t: int| s.must().union(s.maybe()).contains(t) implies m.must().union(
                m.maybe()).contains(t) by {
                assert(union_musts(ss).union(union_maybes(ss)).contains(t));
                if !amb.contains(t) {
                    assert(inter_musts(ss).contains(t));
                }
            }
        }
    }
}

/// The unions of a group of well-formed states stay on the node range.
pub proof fn lemma_union_bounds(ss: Seq<State>, n: int)
    requires
        ss.len() >= 1,
        forall|k: int| 0 <= k < ss.len() ==> (#[trigger] ss[k]).wf(n),
    ensures
        union_musts(ss).subset_of(idx_below(n)),
        union_maybes(ss).subset_of(idx_below(n)),
    decreases ss.len(),
{
    if ss.len() <= 1 {
        assert(ss[0].wf(n));
    } else {
        lemma_union_bounds(ss.drop_last(), n);
        assert(ss[ss.len() - 1].wf(n));
    }
}

/// A listed member lies in the set and the range, and conversely.
pub proof fn lemma_inc_elems_contains(s: Set<int>, k: int, t: int)
    ensures
        inc_elems(s, k).contains(t) <==> (s.contains(t) && 0 <= t < k),
    decreases k,
{
    if k <= 0 {
        if inc_elems(s, k).contains(t) {
            let q = choose|q: int| 0 <= q < inc_elems(s, k).len() && inc_elems(s, k)[q] == t;
        }
    } else {
        lemma_inc_elems_contains(s, k - 1, t);
        let prev = inc_elems(s, k - 1);
        if s.contains(k - 1) {
            assert(inc_elems(s, k) == prev.push(k - 1));
            vstd::seq_lib::lemma_seq_contains_after_push(prev, k - 1, t);
        }
    }
}

/// Soundness of merging, second piece: every domain choice of a state is
/// a domain choice of any state that relaxes it. In particular the merged
/// state introduces no false pruning: a dead branch can only appear where
/// the corresponding input state was dead too.
pub proof fn lemma_relax_domain(inst: TSPTWInstance, m: State, s: State, j: int)
    requires
        inst.wf(),
        m.wf(inst.nb_nodes as int),
        s.wf(inst.nb_nodes as int),
        relaxes(m, s),
        domain_seq(inst, s).contains(j),
    ensures
        domain_seq(inst, m).contains(j),
{
    let n = inst.nb_nodes as int;
    if s.depth == n - 1 {
        assert(domain_seq(inst, s) == seq![0int] || domain_seq(inst, s) == Seq::<int>::empty());
        if can_move_spec(inst, s, 0) {
            assert(j == 0) by {
                let q = choose|q: int| 0 <= q < seq![0int].len() && #[trigger] seq![0int][q] == j;
                assert(q == 0);
            }
            lemma_can_move_monotone(inst, m, s, 0, n);
            assert(domain_seq(inst, m)[0] == 0);
        } else {
            assert(!Seq::<int>::empty().contains(j));
        }
    } else {
        if !all_must_feasible(inst, s) {
            assert(!Seq::<int>::empty().contains(j));
        }
        vstd::seq_lib::lemma_seq_concat_contains_all_elements(inc_elems(s.must(), n),
            inc_elems(feasible_maybes(inst, s), n), j);
        lemma_inc_elems_contains(s.must(), n, j);
        lemma_inc_elems_contains(feasible_maybes(inst, s), n, j);
        assert(s.must().contains(j) || (s.maybe().contains(j) && can_move_spec(inst, s, j)));
        assert(can_move_spec(inst, s, j));
        lemma_can_move_monotone(inst, m, s, j, n);
        assert(0 <= j < n) by {
            if s.must().contains(j) {
                assert(idx_below(n).contains(j));
            } else {
                assert(idx_below(n).contains(j));
            }
        }
        assert(all_must_feasible(inst, m)) by {
            assert forall|t: int| m.must().contains(t) implies can_move_spec(inst, m, t) by {
                assert(s.must().contains(t));
                lemma_can_move_monotone(inst, m, s, t, n);
            }
        }
        assert(m.must().contains(j) || m.maybe().contains(j)) by {
            assert(s.must().union(s.maybe()).contains(j));
            assert(m.must().union(m.maybe()).contains(j));
        }
        lemma_inc_elems_contains(m.must(), n, j);
        lemma_inc_elems_contains(feasible_maybes(inst, m), n, j);
        vstd::seq_lib::lemma_seq_concat_contains_all_elements(inc_elems(m.must(), n),
            inc_elems(feasible_maybes(inst, m), n), j);
        assert(m.depth != n - 1);
    }
}

/// The earliest bound after a move: the earliest arrival, raised to the
/// destination window's opening.
pub proof fn lemma_arrival_earliest(inst: TSPTWInstance, s: State, v: int)
    requires
        inst.wf(),
        s.wf(inst.nb_nodes as int),
        0 <= v < inst.nb_nodes,
    ensures
        arrival_spec(inst, s, v).spec_earliest() == (if s.elapsed.spec_earliest()
            + position_min_dist(inst, s.position, v) >= inst.tw(v).earliest {
            s.elapsed.spec_earliest() + position_min_dist(inst, s.position, v)
        } else {
            inst.tw(v).earliest as int
        }),
{
    let n = inst.nb_nodes as int;
    assert(0 <= position_min_dist(inst, s.position, v) <= MAX_TIME) by {
        lemma_position_min_bounds(inst, s, v);
    }
    assert(inst.timewindows@[v].latest <= MAX_TIME);
}

/// On a well-formed state the minimum distance to any node is a real
/// distance of the instance, within `MAX_TIME`.
pub proof fn lemma_position_min_bounds(inst: TSPTWInstance, s: State, v: int)
    requires
        inst.wf(),
        s.wf(inst.nb_nodes as int),
        0 <= v < inst.nb_nodes,
    ensures
        0 <= position_min_dist(inst, s.position, v) <= MAX_TIME,
{
    let n = inst.nb_nodes as int;
    match s.position {
        Position::Node(i) => {
            assert(inst.distances@[i as int]@[v] <= MAX_TIME);
        },
        Position::Virtual(b) => {
            let w = choose|t: int| bits_of(b).contains(t);
            assert(idx_below(n).contains(w));
            lemma_min_dist_attained(inst, bits_of(b), v, n);
            let t = choose|t: int| bits_of(b).contains(t) && 0 <= t < n && min_dist_upto(
                inst, bits_of(b), v, n) == inst.d(t, v);
            assert(idx_below(n).contains(t));
            assert(inst.distances@[t]@[v] <= MAX_TIME);
        },
    }
}

/// Soundness of merging, third piece: taking the same decision from a
/// state and from a state relaxing it leaves the successors in the same
/// relation, so the two previous lemmas keep applying at every later step.
pub proof fn lemma_relax_transition(
    inst: TSPTWInstance,
    rm: State,
    rs: State,
    m: State,
    s: State,
    v: usize,
)
    requires
        inst.wf(),
        m.wf(inst.nb_nodes as int),
        s.wf(inst.nb_nodes as int),
        relaxes(m, s),
        v < inst.nb_nodes,
        can_move_spec(inst, s, v as int),
        is_transition_of(inst, rm, m, v),
        is_transition_of(inst, rs, s, v),
    ensures
        relaxes(rm, rs),
{
    let n = inst.nb_nodes as int;
    assert(rm.depth == rs.depth);
    assert(rs.cands() =~= rm.cands());
    lemma_can_move_monotone(inst, m, s, v as int, n);
    lemma_arrival_earliest(inst, s, v as int);
    lemma_arrival_earliest(inst, m, v as int);
    assert(position_min_dist(inst, m.position, v as int) <= position_min_dist(
        inst, s.position, v as int)) by {
        lemma_position_min_as_set(inst, s.position, v as int, n);
        lemma_position_min_as_set(inst, m.position, v as int, n);
        assert(exists|t: int| s.cands().contains(t) && 0 <= t < n) by {
            match s.position {
                Position::Node(i) => {
                    assert(s.cands().contains(i as int));
                },
                Position::Virtual(b) => {
                    let w = choose|t: int| bits_of(b).contains(t);
                    assert(idx_below(n).contains(w));
                    assert(s.cands().contains(w));
                },
            }
        }
        lemma_min_dist_monotone(inst, s.cands(), m.cands(), v as int, n);
    }
    assert(rm.must().subset_of(rs.must()));
    assert(rs.must().union(rs.maybe()).subset_of(rm.must().union(rm.maybe()))) by {
        assert forall|t: int| rs.must().union(rs.maybe()).contains(t) implies rm.must().union(
            rm.maybe()).contains(t) by {
            assert(t != v as int);
            assert(s.must().union(s.maybe()).contains(t));
            assert(m.must().union(m.maybe()).contains(t));
        }
    }
}

/// Determinism: the transition contract pins every observable part of the
/// successor, so two results of the same decision on the same state agree
/// on position, elapsed time, both node sets, depth and tolerance.
pub proof fn lemma_transition_deterministic(
    inst: TSPTWInstance,
    r1: State,
    r2: State,
    s: State,
    v: usize,
)
    requires
        is_transition_of(inst, r1, s, v),
        is_transition_of(inst, r2, s, v),
        bit_width(r1.must_visit) == bit_width(r2.must_visit),
        (match (r1.maybe_visit, r2.maybe_visit) {
            (Some(x), Some(y)) => bit_width(x) == bit_width(y),
            _ => true,
        }),
    ensures
        r1.equiv(r2),
{
}


/// The node a concrete position stands at.
pub open spec fn node_of(s: State) -> int {
    match s.position {
        Position::Node(i) => i as int,
        Position::Virtual(_) => 0,
    }
}

/// Arrival time after travelling from node `p` at exact elapsed `e` to
/// node `j`: travel plus any waiting for `j`'s window to open.
pub open spec fn step_arrival(inst: TSPTWInstance, p: int, e: int, j: int) -> int {
    if e + inst.d(p, j) >= inst.tw(j).earliest {
        e + inst.d(p, j)
    } else {
        inst.tw(j).earliest as int
    }
}

/// The (negated) cost of one step of a completion, as the model charges
/// it: travel plus waiting.
pub open spec fn step_cost(inst: TSPTWInstance, p: int, e: int, j: int) -> int {
    let travel = inst.d(p, j);
    let wait = if e + travel < inst.tw(j).earliest {
        inst.tw(j).earliest - (e + travel)
    } else {
        0
    };
    -(travel + wait)
}

/// A decision sequence that legally completes the tour from an exact
/// configuration: position `p`, exact elapsed `e`, mandatory set `must`,
/// `depth` decisions taken. Before the final step every mandatory node
/// must still be reachable and the chosen node mandatory; the final step
/// returns to the depot within its window.
pub open spec fn feasible_completion(
    inst: TSPTWInstance,
    p: int,
    e: int,
    must: Set<int>,
    depth: int,
    ds: Seq<int>,
) -> bool
    decreases ds.len(),
{
    let n = inst.nb_nodes as int;
    if ds.len() == 0 {
        depth == n
    } else {
        let j = ds[0];
        let ok = if depth == n - 1 {
            j == 0 && e + inst.d(p, 0) <= inst.tw(0).latest
        } else {
            (forall|t: int| must.contains(t) ==> e + inst.d(p, t) <= inst.tw(t).latest)
                && must.contains(j)
        };
        ok && feasible_completion(inst, j, step_arrival(inst, p, e, j), must.remove(j), depth + 1,
            ds.drop_first())
    }
}

/// Total (negated) cost of a completion.
pub open spec fn completion_cost(inst: TSPTWInstance, p: int, e: int, ds: Seq<int>) -> int
    decreases ds.len(),
{
    if ds.len() == 0 {
        0
    } else {
        step_cost(inst, p, e, ds[0]) + completion_cost(inst, ds[0], step_arrival(
            inst, p, e, ds[0]), ds.drop_first())
    }
}

/// An exact configuration: a concrete in-range position that is no longer
/// owed, a mandatory set on the node range without the depot, and exactly
/// one remaining non-depot slot per mandatory node.
pub open spec fn exact_config(inst: TSPTWInstance, p: int, must: Set<int>, depth: int) -> bool {
    let n = inst.nb_nodes as int;
    &&& 0 <= p < n
    &&& !must.contains(p)
    &&& must.subset_of(idx_below(n))
    &&& !must.contains(0)
    &&& card_upto(must, n) == n - 1 - depth
    &&& 0 <= depth <= n - 1
}

/// Removing a member lowers the member count by one.
pub proof fn lemma_card_remove(set: Set<int>, k: int, x: int)
    requires
        set.contains(x),
        0 <= x < k,
    ensures
        card_upto(set.remove(x), k) == card_upto(set, k) - 1,
    decreases k,
{
    if x == k - 1 {
        lemma_card_same(set.remove(x), set, k - 1);
    } else {
        lemma_card_remove(set, k - 1, x);
    }
}

/// The member count only reads membership below `k`.
pub proof fn lemma_card_same(a: Set<int>, b: Set<int>, k: int)
    requires
        forall|t: int| 0 <= t < k ==> (a.contains(t) <==> b.contains(t)),
    ensures
        card_upto(a, k) == card_upto(b, k),
    decreases k,
{
    if k > 0 {
        lemma_card_same(a, b, k - 1);
    }
}

/// The member count is never negative.
pub proof fn lemma_card_nonneg(set: Set<int>, k: int)
    ensures
        0 <= card_upto(set, k),
    decreases k,
{
    if k > 0 {
        lemma_card_nonneg(set, k - 1);
    }
}

/// A member below `k` makes the member count positive.
pub proof fn lemma_card_member_pos(set: Set<int>, k: int, t: int)
    requires
        set.contains(t),
        0 <= t < k,
    ensures
        card_upto(set, k) >= 1,
    decreases k,
{
    lemma_card_nonneg(set, k - 1);
    if t < k - 1 {
        lemma_card_member_pos(set, k - 1, t);
    }
}

/// Removing a member takes its cheapest entry out of the sum.
pub proof fn lemma_sum_cheapest_remove(inst: TSPTWInstance, set: Set<int>, k: int, x: int)
    requires
        set.contains(x),
        0 <= x < k,
    ensures
        sum_cheapest_upto(inst, set, k) == sum_cheapest_upto(inst, set.remove(x), k)
            + cheapest_spec(inst, x),
    decreases k,
{
    if x == k - 1 {
        lemma_sum_cheapest_same(inst, set.remove(x), set, k - 1);
    } else {
        lemma_sum_cheapest_remove(inst, set, k - 1, x);
    }
}

/// The cheapest-entry sum only reads membership below `k`.
pub proof fn lemma_sum_cheapest_same(inst: TSPTWInstance, a: Set<int>, b: Set<int>, k: int)
    requires
        forall|t: int| 0 <= t < k ==> (a.contains(t) <==> b.contains(t)),
    ensures
        sum_cheapest_upto(inst, a, k) == sum_cheapest_upto(inst, b, k),
    decreases k,
{
    if k > 0 {
        lemma_sum_cheapest_same(inst, a, b, k - 1);
    }
}

/// Without members the cheapest-entry sum is zero.
pub proof fn lemma_sum_cheapest_none(inst: TSPTWInstance, set: Set<int>, k: int)
    requires
        forall|t: int| !(set.contains(t) && 0 <= t < k),
    ensures
        sum_cheapest_upto(inst, set, k) == 0,
    decreases k,
{
    if k > 0 {
        lemma_sum_cheapest_none(inst, set, k - 1);
    }
}

/// The depot-return component of the bound for an exact configuration:
/// the cheapest return among the nodes still owed, or from the current
/// position once nothing is owed.
pub open spec fn depot_lb(inst: TSPTWInstance, p: int, must: Set<int>) -> int {
    if exists|t: int| must.contains(t) && 0 <= t < inst.nb_nodes {
        min_dist_upto(inst, must, 0, inst.nb_nodes as int)
    } else {
        inst.d(p, 0)
    }
}

/// A mandatory node whose deadline the cheapest entry already misses
/// leaves no feasible completion.
pub proof fn lemma_violation_infeasible(
    inst: TSPTWInstance,
    p: int,
    e: int,
    must: Set<int>,
    depth: int,
    ds: Seq<int>,
    x: int,
)
    requires
        inst.wf(),
        exact_config(inst, p, must, depth),
        0 <= e,
        must.contains(x),
        e + cheapest_spec(inst, x) > inst.tw(x).latest,
    ensures
        !feasible_completion(inst, p, e, must, depth, ds),
{
    let n = inst.nb_nodes as int;
    if feasible_completion(inst, p, e, must, depth, ds) {
        assert(idx_below(n).contains(x));
        assert(ds.len() != 0);
        if depth == n - 1 {
            lemma_card_member_pos(must, n, x);
        } else {
            assert(e + inst.d(p, x) <= inst.tw(x).latest);
            lemma_cheapest_le(inst, x, n, p);
        }
        assert(false);
    }
}

/// Core of the bound's validity on exact configurations: every feasible
/// completion pays at least the cheapest entry of each owed node plus a
/// cheapest depot return, and still meets the depot deadline after those
/// lower bounds.
pub proof fn lemma_completion_bound(
    inst: TSPTWInstance,
    p: int,
    e: int,
    must: Set<int>,
    depth: int,
    ds: Seq<int>,
)
    requires
        inst.wf(),
        exact_config(inst, p, must, depth),
        0 <= e,
        feasible_completion(inst, p, e, must, depth, ds),
    ensures
        -completion_cost(inst, p, e, ds) >= sum_cheapest_upto(inst, must, inst.nb_nodes as int)
            + depot_lb(inst, p, must),
        e + sum_cheapest_upto(inst, must, inst.nb_nodes as int) + depot_lb(inst, p, must)
            <= inst.tw(0).latest,
    decreases ds.len(),
{
    let n = inst.nb_nodes as int;
    assert(ds.len() != 0);
    let j = ds[0];
    if depth == n - 1 {
        assert(j == 0);
        assert(!(exists|t: int| must.contains(t) && 0 <= t < n)) by {
            if exists|t: int| must.contains(t) && 0 <= t < n {
                let t = choose|t: int| must.contains(t) && 0 <= t < n;
                lemma_card_member_pos(must, n, t);
            }
        }
        lemma_sum_cheapest_none(inst, must, n);
        assert(feasible_completion(inst, 0, step_arrival(inst, p, e, 0), must.remove(0), n,
            ds.drop_first()));
        assert(ds.drop_first().len() == 0) by {
            if ds.drop_first().len() != 0 {
                let j2 = ds.drop_first()[0];
                assert(must.remove(0).contains(j2));
                assert(idx_below(n).contains(j2));
                lemma_card_member_pos(must, n, j2);
            }
        }
        assert(completion_cost(inst, ds[0], step_arrival(inst, p, e, ds[0]), ds.drop_first())
            == 0);
        assert(completion_cost(inst, p, e, ds) == step_cost(inst, p, e, 0));
        assert(inst.distances@[p]@[0] >= 0);
    } else {
        assert(must.contains(j));
        assert(idx_below(n).contains(j));
        let e1 = step_arrival(inst, p, e, j);
        let must1 = must.remove(j);
        assert(exact_config(inst, j, must1, depth + 1)) by {
            lemma_card_remove(must, n, j);
        }
        assert(0 <= e1) by {
            assert(inst.distances@[p]@[j] >= 0);
        }
        lemma_completion_bound(inst, j, e1, must1, depth + 1, ds.drop_first());
        lemma_sum_cheapest_remove(inst, must, n, j);
        lemma_cheapest_le(inst, j, n, p);
        assert(exists|t: int| must.contains(t) && 0 <= t < n) by {
            assert(must.contains(j) && 0 <= j < n);
        }
        assert(depot_lb(inst, p, must) == min_dist_upto(inst, must, 0, n));
        assert(depot_lb(inst, j, must1) >= min_dist_upto(inst, must, 0, n)) by {
            if exists|t: int| must1.contains(t) && 0 <= t < n {
                lemma_min_dist_monotone(inst, must1, must, 0, n);
            } else {
                lemma_min_dist_le(inst, must, 0, n, j);
            }
        }
        assert(e1 >= e + cheapest_spec(inst, j)) by {
            assert(inst.d(p, j) >= cheapest_spec(inst, j));
        }
        assert(-step_cost(inst, p, e, j) >= cheapest_spec(inst, j));
        assert(-step_cost(inst, p, e, j) == e1 - e);
    }
}

/// Bound validity (the critical pruning property): `estimate` of a state
/// never undercuts the total (negated) cost of any feasible completion of
/// an exact state it over-approximates — the state itself when it is
/// exact (`relaxes` is reflexive), and every input of the merge that
/// produced it (`lemma_merge_relaxes`). Pruning against the bound
/// therefore never discards a value achievable by a real tour through the
/// state. The tolerance premise is the budget every reachable state
/// carries (`lemma_merge_tolerance_budget`,
/// `lemma_transition_tolerance_budget`). The bound is not measured
/// against the relaxed state's own path values: a step out of a
/// candidate-set position can cost less than any real tour segment pays
/// (the set may hold the destination itself, at distance zero), so no
/// bound built from cheapest entries lies above those paths — what
/// branch-and-bound correctness needs is exactly the exact-completion
/// claim proved here.
pub proof fn lemma_estimate_sound(inst: TSPTWInstance, m: State, s: State, ds: Seq<int>)
    requires
        inst.wf(),
        m.wf(inst.nb_nodes as int),
        s.wf(inst.nb_nodes as int),
        relaxes(m, s),
        s.maybe_visit is None,
        s.position is Node,
        s.elapsed is FixedAmount,
        card_upto(s.must(), inst.nb_nodes as int) == inst.nb_nodes - 1 - s.depth,
        m.tolerance >= card_upto(m.maybe(), inst.nb_nodes as int),
        feasible_completion(inst, node_of(s), s.elapsed.spec_earliest(), s.must(),
            s.depth as int, ds),
    ensures
        estimate_spec(inst, m) >= completion_cost(inst, node_of(s), s.elapsed.spec_earliest(),
            ds),
{
    broadcast use vstd::seq_lib::group_to_multiset_ensures;

    let n = inst.nb_nodes as int;
    let p = node_of(s);
    let e = s.elapsed.spec_earliest();
    let em = m.elapsed.spec_earliest();
    let owed = s.must();
    let mm = m.must();
    let mb = m.maybe();
    let k = s.depth as int;
    assert(exact_config(inst, p, owed, k)) by {
        lemma_card_nonneg(owed, n);
    }
    assert(mm.subset_of(owed));
    assert(owed.subset_of(mm.union(mb)));
    assert(em <= e);
    if exists|t: int| mm.contains(t) && violates(inst, m, t) {
        let t = choose|t: int| mm.contains(t) && violates(inst, m, t);
        assert(owed.contains(t));
        lemma_violation_infeasible(inst, p, e, owed, k, ds, t);
        assert(false);
    } else {
        let mc = card_upto(mm, n);
        let slots = n - 1 - k;
        lemma_card_subset(mm, owed, n);
        assert(mc <= slots);
        let dd = owed.difference(mm);
        lemma_card_diff(mm, owed, n);
        assert(card_upto(dd, n) == slots - mc);
        assert(dd.subset_of(mb)) by {
            assert forall|t: int| dd.contains(t) implies mb.contains(t) by {
                assert(owed.contains(t));
                assert(mm.union(mb).contains(t));
            }
        }
        let mand0 = sum_cheapest_upto(inst, mm, n);
        lemma_sum_cheapest_split(inst, mm, owed, n);
        let btd0 = min_dist_upto(inst, mm, 0, n);
        lemma_completion_bound(inst, p, e, owed, k, ds);
        let dep = depot_lb(inst, p, owed);
        assert forall|t: int| dd.contains(t) implies !violates(inst, m, t) by {
            if violates(inst, m, t) {
                assert(owed.contains(t));
                lemma_violation_infeasible(inst, p, e, owed, k, ds, t);
            }
        }
        let pd = position_min_dist(inst, m.position, 0);
        assert(pd <= inst.d(p, 0)) by {
            assert(s.cands().contains(p));
            assert(m.cands().contains(p));
            match m.position {
                Position::Node(q) => {
                    assert(q == p);
                },
                Position::Virtual(b) => {
                    lemma_min_dist_le(inst, bits_of(b), 0, n, p);
                },
            }
        }
        if owed.contains(p) {
            assert(false);
        }
        if !(exists|t: int| owed.contains(t) && 0 <= t < n) {
            // Nothing is owed: the final depot step is all that remains.
            assert(forall|t: int| !(mm.contains(t) && 0 <= t < n));
            lemma_sum_cheapest_none(inst, mm, n);
            assert(slots == 0) by {
                lemma_card_upto_len(owed, n);
                assert(owed.intersect(idx_below(n)) =~= Set::<int>::empty());
            }
            assert(mc == 0) by {
                lemma_card_nonneg(mm, n);
            }
        }
        match m.maybe_visit {
            Some(_) => {
                let nmb = card_upto(mb, n);
                let viol = count_viol_upto(inst, m, mb, n);
                let mdep = min_dist_upto(inst, mb, 0, n);
                let btd1 = if mdep < btd0 {
                    mdep
                } else {
                    btd0
                };
                let vv = Set::new(|t: int| mb.contains(t) && violates(inst, m, t));
                lemma_count_viol_as_card(inst, m, mb, n);
                assert(vv.subset_of(mb));
                lemma_card_diff(vv, mb, n);
                assert(dd.subset_of(mb.difference(vv)));
                lemma_card_subset(dd, mb.difference(vv), n);
                assert(nmb - viol >= slots - mc);
                lemma_count_viol_upto_bounds(inst, m, mb, n);
                assert(viol <= nmb <= m.tolerance);
                let sorted = cheapest_vals_upto(inst, mb, n).sort_by(u64_le());
                lemma_take_le_subset_sum(inst, mb, dd, n);
                let mand = mand0 + seq_sum64(sorted.take(slots - mc));
                assert(mand <= sum_cheapest_upto(inst, owed, n));
                if exists|t: int| owed.contains(t) && 0 <= t < n {
                    assert(btd1 <= dep) by {
                        lemma_min_dist_attained(inst, owed, 0, n);
                        let t = choose|t: int| owed.contains(t) && 0 <= t < n
                            && min_dist_upto(inst, owed, 0, n) == inst.d(t, 0);
                        if mm.contains(t) {
                            lemma_min_dist_le(inst, mm, 0, n, t);
                        } else {
                            assert(mb.contains(t));
                            lemma_min_dist_le(inst, mb, 0, n, t);
                        }
                    }
                } else {
                    assert(mand0 == 0);
                    assert(sorted.take(0) =~= Seq::<u64>::empty());
                    assert(seq_sum64(Seq::<u64>::empty()) == 0);
                    assert(mand == 0);
                    assert(dep == inst.d(p, 0));
                }
            },
            None => {
                assert(mb =~= Set::<int>::empty());
                assert(forall|t: int| owed.contains(t) <==> mm.contains(t)) by {
                    assert forall|t: int| owed.contains(t) implies mm.contains(t) by {
                        assert(mm.union(mb).contains(t));
                    }
                }
                lemma_sum_cheapest_same(inst, mm, owed, n);
                if exists|t: int| owed.contains(t) && 0 <= t < n {
                    assert(btd0 == dep) by {
                        lemma_min_dist_same(inst, mm, owed, 0, n);
                    }
                } else {
                    assert(mand0 == 0);
                    assert(dep == inst.d(p, 0));
                }
            },
        }
    }
}

/// The distance minimum only reads membership below `k`.
pub proof fn lemma_min_dist_same(inst: TSPTWInstance, a: Set<int>, b: Set<int>, j: int, k: int)
    requires
        forall|t: int| 0 <= t < k ==> (a.contains(t) <==> b.contains(t)),
    ensures
        min_dist_upto(inst, a, j, k) == min_dist_upto(inst, b, j, k),
    decreases k,
{
    if k > 0 {
        lemma_min_dist_same(inst, a, b, j, k - 1);
    }
}

/// On an exact state the completion semantics are the model's own: a step
/// is offered by `domain_of` exactly when the completion admits it, it is
/// charged `transition_cost`'s value, and it arrives at `arrival_time`'s
/// exact point.
pub proof fn lemma_completion_matches_model(inst: TSPTWInstance, s: State, j: int)
    requires
        inst.wf(),
        s.wf(inst.nb_nodes as int),
        s.maybe_visit is None,
        s.position is Node,
        s.elapsed is FixedAmount,
        s.depth < inst.nb_nodes,
        0 <= j < inst.nb_nodes,
    ensures
        step_cost(inst, node_of(s), s.elapsed.spec_earliest(), j) == crate::model::cost_spec(
            inst, s, j),
        domain_seq(inst, s).contains(j) <==> (if s.depth == inst.nb_nodes - 1 {
            j == 0 && s.elapsed.spec_earliest() + inst.d(node_of(s), 0) <= inst.tw(0).latest
        } else {
            (forall|t: int| s.must().contains(t) ==> s.elapsed.spec_earliest() + inst.d(
                node_of(s), t) <= inst.tw(t).latest) && s.must().contains(j)
        }),
        can_move_spec(inst, s, j) ==> arrival_spec(inst, s, j) == (ElapsedTime::FixedAmount {
            duration: step_arrival(inst, node_of(s), s.elapsed.spec_earliest(), j) as u64,
        }),
{
    let n = inst.nb_nodes as int;
    let p = node_of(s);
    let e = s.elapsed.spec_earliest();
    assert(position_min_dist(inst, s.position, j) == inst.d(p, j));
    assert(s.maybe() =~= Set::<int>::empty());
    assert(feasible_maybes(inst, s) =~= Set::<int>::empty());
    crate::model::lemma_inc_elems_empty(feasible_maybes(inst, s), n);
    if s.depth == n - 1 {
        if can_move_spec(inst, s, 0) {
            assert(domain_seq(inst, s) == seq![0int]);
            assert(seq![0int][0] == 0);
            if domain_seq(inst, s).contains(j) {
                let q = choose|q: int| 0 <= q < seq![0int].len() && #[trigger] seq![0int][q] == j;
                assert(q == 0);
            }
        } else {
            assert(!Seq::<int>::empty().contains(j));
        }
    } else {
        if all_must_feasible(inst, s) {
            assert(domain_seq(inst, s) == inc_elems(s.must(), n) + inc_elems(feasible_maybes(
                inst, s), n));
            vstd::seq_lib::lemma_seq_concat_contains_all_elements(inc_elems(s.must(), n),
                inc_elems(feasible_maybes(inst, s), n), j);
            lemma_inc_elems_contains(s.must(), n, j);
            lemma_inc_elems_contains(feasible_maybes(inst, s), n, j);
            assert(forall|t: int| s.must().contains(t) ==> e + inst.d(p, t) <= inst.tw(
                t).latest) by {
                assert forall|t: int| s.must().contains(t) implies e + inst.d(p, t) <= inst.tw(
                    t).latest by {
                    assert(can_move_spec(inst, s, t));
                }
            }
        } else {
            assert(!Seq::<int>::empty().contains(j));
            let t = choose|t: int| s.must().contains(t) && !can_move_spec(inst, s, t);
            assert(e + inst.d(p, t) > inst.tw(t).latest);
        }
    }
    if can_move_spec(inst, s, j) {
        assert(inst.distances@[p]@[j] <= MAX_TIME);
        assert(inst.timewindows@[j].earliest <= MAX_TIME);
    }
}

/// A node the domain offers is reachable and on the node range.
pub proof fn lemma_domain_can_move(inst: TSPTWInstance, s: State, j: int)
    requires
        inst.wf(),
        s.wf(inst.nb_nodes as int),
        domain_seq(inst, s).contains(j),
    ensures
        can_move_spec(inst, s, j),
        0 <= j < inst.nb_nodes,
{
    let n = inst.nb_nodes as int;
    if s.depth == n - 1 {
        if can_move_spec(inst, s, 0) {
            let q = choose|q: int| 0 <= q < seq![0int].len() && #[trigger] seq![0int][q] == j;
            assert(q == 0);
        } else {
            assert(!Seq::<int>::empty().contains(j));
        }
    } else {
        if !all_must_feasible(inst, s) {
            assert(!Seq::<int>::empty().contains(j));
        }
        vstd::seq_lib::lemma_seq_concat_contains_all_elements(inc_elems(s.must(), n),
            inc_elems(feasible_maybes(inst, s), n), j);
        lemma_inc_elems_contains(s.must(), n, j);
        lemma_inc_elems_contains(feasible_maybes(inst, s), n, j);
        if s.must().contains(j) {
            assert(idx_below(n).contains(j));
        } else {
            assert(s.maybe().contains(j));
            assert(idx_below(n).contains(j));
        }
    }
}

/// Soundness of merging, assembled over a whole decision sequence: start
/// from any state `ss[0]` that a relaxed state `ms[0]` over-approximates
/// (for a merged state, `lemma_merge_relaxes` provides this), and follow
/// one decision sequence on both sides through the transition function.
/// Then every decision that was a legal domain choice on the exact side is
/// a legal domain choice on the relaxed side at the same step, and the
/// over-approximation persists to every later state: merging never prunes
/// a continuation of any merged-in state.
pub proof fn lemma_merge_soundness_trace(
    inst: TSPTWInstance,
    ms: Seq<State>,
    ss: Seq<State>,
    vs: Seq<usize>,
)
    requires
        inst.wf(),
        ms.len() == vs.len() + 1,
        ss.len() == vs.len() + 1,
        forall|i: int| 0 <= i < ms.len() ==> (#[trigger] ms[i]).wf(inst.nb_nodes as int),
        forall|i: int| 0 <= i < ss.len() ==> (#[trigger] ss[i]).wf(inst.nb_nodes as int),
        relaxes(ms[0], ss[0]),
        forall|i: int| 0 <= i < vs.len() ==> domain_seq(inst, ss[i]).contains(
            (#[trigger] vs[i]) as int),
        forall|i: int| 0 <= i < vs.len() ==> is_transition_of(inst, ss[i + 1], ss[i],
            #[trigger] vs[i]),
        forall|i: int| 0 <= i < vs.len() ==> is_transition_of(inst, ms[i + 1], ms[i],
            #[trigger] vs[i]),
    ensures
        forall|i: int| 0 <= i < vs.len() ==> domain_seq(inst, ms[i]).contains(
            (#[trigger] vs[i]) as int),
        forall|i: int| 0 <= i < ms.len() ==> relaxes(#[trigger] ms[i], ss[i]),
    decreases vs.len(),
{
    let n = inst.nb_nodes as int;
    if vs.len() == 0 {
    } else {
        let v0 = vs[0];
        assert(domain_seq(inst, ss[0]).contains(v0 as int));
        lemma_domain_can_move(inst, ss[0], v0 as int);
        lemma_relax_domain(inst, ms[0], ss[0], v0 as int);
        assert(is_transition_of(inst, ss[1], ss[0], v0));
        assert(is_transition_of(inst, ms[1], ms[0], v0));
        lemma_relax_transition(inst, ms[1], ss[1], ms[0], ss[0], v0);
        let ms1 = ms.drop_first();
        let ss1 = ss.drop_first();
        let vs1 = vs.drop_first();
        assert forall|i: int| 0 <= i < ms1.len() implies (#[trigger] ms1[i]).wf(n) by {
            assert(ms1[i] == ms[i + 1]);
        }
        assert forall|i: int| 0 <= i < ss1.len() implies (#[trigger] ss1[i]).wf(n) by {
            assert(ss1[i] == ss[i + 1]);
        }
        assert(ms1[0] == ms[1] && ss1[0] == ss[1]);
        assert forall|i: int| 0 <= i < vs1.len() implies domain_seq(inst, ss1[i]).contains(
            (#[trigger] vs1[i]) as int) by {
            assert(vs1[i] == vs[i + 1]);
            assert(ss1[i] == ss[i + 1]);
            assert(domain_seq(inst, ss[i + 1]).contains(vs[i + 1] as int));
        }
        assert forall|i: int| 0 <= i < vs1.len() implies is_transition_of(inst, ss1[i + 1],
            ss1[i], #[trigger] vs1[i]) by {
            assert(vs1[i] == vs[i + 1]);
            assert(ss1[i] == ss[i + 1]);
            assert(ss1[i + 1] == ss[i + 2]);
            assert(is_transition_of(inst, ss[i + 2], ss[i + 1], vs[i + 1]));
        }
        assert forall|i: int| 0 <= i < vs1.len() implies is_transition_of(inst, ms1[i + 1],
            ms1[i], #[trigger] vs1[i]) by {
            assert(vs1[i] == vs[i + 1]);
            assert(ms1[i] == ms[i + 1]);
            assert(ms1[i + 1] == ms[i + 2]);
            assert(is_transition_of(inst, ms[i + 2], ms[i + 1], vs[i + 1]));
        }
        lemma_merge_soundness_trace(inst, ms1, ss1, vs1);
        assert forall|i: int| 0 <= i < vs.len() implies domain_seq(inst, ms[i]).contains(
            (#[trigger] vs[i]) as int) by {
            if i > 0 {
                assert(vs1[i - 1] == vs[i]);
                assert(ms1[i - 1] == ms[i]);
                assert(domain_seq(inst, ms1[i - 1]).contains(vs1[i - 1] as int));
            }
        }
        assert forall|i: int| 0 <= i < ms.len() implies relaxes(#[trigger] ms[i], ss[i]) by {
            if i > 0 {
                assert(ms1[i - 1] == ms[i]);
                assert(ss1[i - 1] == ss[i]);
                assert(relaxes(ms1[i - 1], ss1[i - 1]));
            }
        }
    }
}

/// A subset never counts more members.
pub proof fn lemma_card_subset(a: Set<int>, b: Set<int>, k: int)
    requires
        a.subset_of(b),
    ensures
        card_upto(a, k) <= card_upto(b, k),
    decreases k,
{
    if k > 0 {
        lemma_card_subset(a, b, k - 1);
    }
}

/// Members split between a subset and its complement.
pub proof fn lemma_card_diff(a: Set<int>, b: Set<int>, k: int)
    requires
        a.subset_of(b),
    ensures
        card_upto(b, k) == card_upto(a, k) + card_upto(b.difference(a), k),
    decreases k,
{
    if k > 0 {
        lemma_card_diff(a, b, k - 1);
    }
}

/// The cheapest-entry sum splits between a subset and its complement.
pub proof fn lemma_sum_cheapest_split(inst: TSPTWInstance, a: Set<int>, b: Set<int>, k: int)
    requires
        a.subset_of(b),
    ensures
        sum_cheapest_upto(inst, b, k) == sum_cheapest_upto(inst, a, k) + sum_cheapest_upto(
            inst, b.difference(a), k),
    decreases k,
{
    if k > 0 {
        lemma_sum_cheapest_split(inst, a, b, k - 1);
    }
}

/// The violation count is the member count of the violating subset.
pub proof fn lemma_count_viol_as_card(inst: TSPTWInstance, st: State, set: Set<int>, k: int)
    ensures
        count_viol_upto(inst, st, set, k) == card_upto(
            Set::new(|t: int| set.contains(t) && violates(inst, st, t)), k),
    decreases k,
{
    if k > 0 {
        lemma_count_viol_as_card(inst, st, set, k - 1);
    }
}

/// No more violations than members.
pub proof fn lemma_count_viol_upto_bounds(inst: TSPTWInstance, st: State, set: Set<int>, k: int)
    ensures
        0 <= count_viol_upto(inst, st, set, k) <= card_upto(set, k),
    decreases k,
{
    if k > 0 {
        lemma_count_viol_upto_bounds(inst, st, set, k - 1);
    }
}

/// A point-wise smaller sequence has a smaller sum.
pub proof fn lemma_seq_sum64_pointwise_le(x: Seq<u64>, y: Seq<u64>)
    requires
        x.len() == y.len(),
        forall|i: int| 0 <= i < x.len() ==> #[trigger] x[i] <= y[i],
    ensures
        seq_sum64(x) <= seq_sum64(y),
    decreases x.len(),
{
    if x.len() > 0 {
        assert(x[0] <= y[0]);
        assert forall|i: int| 0 <= i < x.drop_first().len() implies #[trigger] x.drop_first()[i]
            <= y.drop_first()[i] by {
            assert(x[i + 1] <= y[i + 1]);
        }
        lemma_seq_sum64_pointwise_le(x.drop_first(), y.drop_first());
    }
}

/// Removing one element takes its value out of the sum.
pub proof fn lemma_seq_sum64_remove(s: Seq<u64>, idx: int)
    requires
        0 <= idx < s.len(),
    ensures
        seq_sum64(s) == seq_sum64(s.remove(idx)) + s[idx],
    decreases idx,
{
    if idx == 0 {
        assert(s.remove(0) =~= s.drop_first());
    } else {
        assert(s.remove(idx).drop_first() =~= s.drop_first().remove(idx - 1));
        lemma_seq_sum64_remove(s.drop_first(), idx - 1);
    }
}

/// Sequences with equal multisets have equal sums.
pub proof fn lemma_seq_sum64_multiset(x: Seq<u64>, y: Seq<u64>)
    requires
        x.to_multiset() == y.to_multiset(),
    ensures
        seq_sum64(x) == seq_sum64(y),
    decreases x.len(),
{
    broadcast use vstd::seq_lib::group_to_multiset_ensures;

    if x.len() == 0 {
        assert(x.to_multiset().len() == x.len());
        assert(y.to_multiset().len() == y.len());
        assert(y.len() == 0);
    } else {
        let v = x[0];
        assert(x.to_multiset().contains(v));
        assert(y.contains(v));
        let j = choose|j: int| 0 <= j < y.len() && y[j] == v;
        assert(x.drop_first() =~= x.remove(0));
        assert(x.drop_first().to_multiset() =~= x.to_multiset().remove(v));
        assert(y.remove(j).to_multiset() =~= y.to_multiset().remove(v));
        lemma_seq_sum64_multiset(x.drop_first(), y.remove(j));
        lemma_seq_sum64_remove(y, j);
    }
}

/// The collected values sum to the cheapest-entry sum.
pub proof fn lemma_vals_sum(inst: TSPTWInstance, set: Set<int>, k: int)
    ensures
        seq_sum64(cheapest_vals_upto(inst, set, k)) == sum_cheapest_upto(inst, set, k),
    decreases k,
{
    if k > 0 {
        lemma_vals_sum(inst, set, k - 1);
        if set.contains(k - 1) {
            lemma_seq_sum64_push(cheapest_vals_upto(inst, set, k - 1), cheapest_spec(
                inst, k - 1) as u64);
            assert(0 <= cheapest_spec(inst, k - 1) <= u64::MAX) by {
                crate::relax::lemma_cheapest_nonneg(inst, k - 1, inst.nb_nodes as int);
                lemma_cheapest_upto_max(inst, k - 1, inst.nb_nodes as int);
            }
        }
    }
}

/// The running cheapest entry never exceeds its sentinel.
pub proof fn lemma_cheapest_upto_max(inst: TSPTWInstance, i: int, k: int)
    ensures
        crate::relax::cheapest_upto(inst, i, k) <= u64::MAX,
    decreases k,
{
    if k > 0 {
        lemma_cheapest_upto_max(inst, i, k - 1);
        assert(inst.distances@[k - 1]@[i] <= u64::MAX);
    }
}

/// A subset's collected values are a sub-multiset of the superset's.
pub proof fn lemma_vals_submultiset(inst: TSPTWInstance, a: Set<int>, b: Set<int>, k: int)
    requires
        a.subset_of(b),
    ensures
        forall|v: u64| #[trigger] cheapest_vals_upto(inst, a, k).to_multiset().count(v)
            <= cheapest_vals_upto(inst, b, k).to_multiset().count(v),
    decreases k,
{
    broadcast use vstd::seq_lib::group_to_multiset_ensures;

    if k > 0 {
        lemma_vals_submultiset(inst, a, b, k - 1);
        let xa = cheapest_vals_upto(inst, a, k - 1);
        let xb = cheapest_vals_upto(inst, b, k - 1);
        let c = cheapest_spec(inst, k - 1) as u64;
        if a.contains(k - 1) {
            assert(xa.push(c).to_multiset() =~= xa.to_multiset().insert(c));
            assert(xb.push(c).to_multiset() =~= xb.to_multiset().insert(c));
        } else if b.contains(k - 1) {
            assert(xb.push(c).to_multiset() =~= xb.to_multiset().insert(c));
        }
    }
}

/// Point-wise domination of sorted runs: where one sorted sequence's
/// multiset is contained in another's, the larger sequence is point-wise
/// no greater on the shared prefix (its `i`-th smallest value never
/// exceeds the subset's `i`-th smallest).
pub proof fn lemma_sorted_dominates(x: Seq<u64>, y: Seq<u64>)
    requires
        vstd::relations::sorted_by(x, u64_le()),
        vstd::relations::sorted_by(y, u64_le()),
        forall|v: u64| #[trigger] x.to_multiset().count(v) <= y.to_multiset().count(v),
    ensures
        x.len() <= y.len(),
        forall|i: int| 0 <= i < x.len() ==> #[trigger] y[i] <= x[i],
    decreases y.len(),
{
    broadcast use vstd::seq_lib::group_to_multiset_ensures;

    if x.len() == 0 {
        assert(x.to_multiset().len() == x.len());
        assert(y.to_multiset().len() == y.len());
    } else {
        assert(x.to_multiset().count(x[0]) > 0);
        assert(y.to_multiset().count(x[0]) > 0);
        assert(y.contains(x[0]));
        let j = choose|j: int| 0 <= j < y.len() && y[j] == x[0];
        assert(u64_le()(y[0], y[j]) || j == 0);
        let x1 = x.drop_first();
        let y1 = y.drop_first();
        assert(x1 =~= x.remove(0));
        assert(y1 =~= y.remove(0));
        assert(vstd::relations::sorted_by(x1, u64_le())) by {
            assert forall|p: int, q: int| 0 <= p < q < x1.len() implies u64_le()(
                x1[p], x1[q]) by {
                assert(u64_le()(x[p + 1], x[q + 1]));
            }
        }
        assert(vstd::relations::sorted_by(y1, u64_le())) by {
            assert forall|p: int, q: int| 0 <= p < q < y1.len() implies u64_le()(
                y1[p], y1[q]) by {
                assert(u64_le()(y[p + 1], y[q + 1]));
            }
        }
        if y[0] == x[0] {
            assert(x1.to_multiset() =~= x.to_multiset().remove(x[0]));
            assert(y1.to_multiset() =~= y.to_multiset().remove(x[0]));
            lemma_sorted_dominates(x1, y1);
            assert forall|i: int| 0 <= i < x.len() implies #[trigger] y[i] <= x[i] by {
                if i > 0 {
                    assert(y1[i - 1] <= x1[i - 1]);
                }
            }
        } else {
            // The head of `y` is strictly below every value of `x`, so it
            // is absent from `x` and can be dropped from `y` alone.
            assert(u64_le()(y[0], y[j]));
            assert(y[0] < x[0]);
            assert(x.to_multiset().count(y[0]) == 0) by {
                if x.to_multiset().count(y[0]) > 0 {
                    assert(x.contains(y[0]));
                    let q = choose|q: int| 0 <= q < x.len() && x[q] == y[0];
                    assert(q > 0 ==> u64_le()(x[0], x[q]));
                }
            }
            assert(y1.to_multiset() =~= y.to_multiset().remove(y[0]));
            assert(forall|v: u64| #[trigger] x.to_multiset().count(v)
                <= y1.to_multiset().count(v)) by {
                assert forall|v: u64| #[trigger] x.to_multiset().count(v)
                    <= y1.to_multiset().count(v) by {
                    if v == y[0] {
                        assert(x.to_multiset().count(v) == 0);
                    }
                }
            }
            lemma_sorted_dominates(x, y1);
            assert forall|i: int| 0 <= i < x.len() implies #[trigger] y[i] <= x[i] by {
                assert(y1[i] <= x[i]);
                if i > 0 {
                    assert(u64_le()(y[i], y[i + 1]));
                }
                assert(y[i] <= y1[i]);
            }
        }
    }
}

/// The bound may charge the `card(T)` cheapest optional entries in place
/// of any concrete choice `T` of optional nodes: the sorted prefix never
/// sums to more than the entries of `T` itself.
pub proof fn lemma_take_le_subset_sum(inst: TSPTWInstance, big: Set<int>, small: Set<int>, n: int)
    requires
        small.subset_of(big),
    ensures
        seq_sum64(cheapest_vals_upto(inst, big, n).sort_by(u64_le()).take(card_upto(small, n)))
            <= sum_cheapest_upto(inst, small, n),
{
    broadcast use vstd::seq_lib::group_to_multiset_ensures;

    lemma_u64_le_total();
    let x0 = cheapest_vals_upto(inst, small, n);
    let y0 = cheapest_vals_upto(inst, big, n);
    let x = x0.sort_by(u64_le());
    let y = y0.sort_by(u64_le());
    x0.lemma_sort_by_ensures(u64_le());
    y0.lemma_sort_by_ensures(u64_le());
    lemma_vals_submultiset(inst, small, big, n);
    assert(forall|v: u64| #[trigger] x.to_multiset().count(v) <= y.to_multiset().count(v));
    lemma_sorted_dominates(x, y);
    let ct = card_upto(small, n);
    lemma_cheapest_vals_len(inst, small, n);
    assert(x.to_multiset().len() == x.len());
    assert(x0.to_multiset().len() == x0.len());
    assert(x.len() == ct);
    assert(y.to_multiset().len() == y.len());
    assert(y0.to_multiset().len() == y0.len());
    assert(y.take(ct).len() == ct);
    assert forall|i: int| 0 <= i < ct implies #[trigger] y.take(ct)[i] <= x[i] by {
        assert(y.take(ct)[i] == y[i]);
        assert(y[i] <= x[i]);
    }
    lemma_seq_sum64_pointwise_le(y.take(ct), x);
    lemma_seq_sum64_multiset(x, x0);
    lemma_vals_sum(inst, small, n);
}

/// The range-bounded member count is the set's cardinality below `k`.
pub proof fn lemma_card_upto_len(set: Set<int>, k: int)
    ensures
        set.intersect(idx_below(k)).finite(),
        card_upto(set, k) == set.intersect(idx_below(k)).len(),
    decreases k,
{
    if k <= 0 {
        assert(set.intersect(idx_below(k)) =~= Set::<int>::empty());
    } else {
        lemma_card_upto_len(set, k - 1);
        if set.contains(k - 1) {
            assert(set.intersect(idx_below(k)) =~= set.intersect(idx_below(k - 1)).insert(
                k - 1));
        } else {
            assert(set.intersect(idx_below(k)) =~= set.intersect(idx_below(k - 1)));
        }
    }
}

/// Merging establishes the tolerance budget the bound's violation test
/// relies on: the merged tolerance covers the whole optional set.
pub proof fn lemma_merge_tolerance_budget(inst: TSPTWInstance, m: State, ss: Seq<State>)
    requires
        inst.wf(),
        ss.len() >= 1,
        forall|k: int| 0 <= k < ss.len() ==> (#[trigger] ss[k]).wf(inst.nb_nodes as int),
        is_merge_of(inst.nb_nodes as int, m, ss),
    ensures
        m.tolerance >= card_upto(m.maybe(), inst.nb_nodes as int),
{
    let n = inst.nb_nodes as int;
    let amb = merge_amb(ss);
    lemma_card_upto_len(m.maybe(), n);
    if amb.len() == 0 {
        assert(m.maybe() =~= Set::<int>::empty());
        assert(m.maybe().intersect(idx_below(n)) =~= Set::<int>::empty());
    } else {
        assert(m.maybe() == amb);
        assert(amb.subset_of(idx_below(n))) by {
            lemma_union_bounds(ss, n);
        }
        assert(m.maybe().intersect(idx_below(n)) =~= amb);
    }
}

/// Transitions preserve the tolerance budget: the optional set only
/// shrinks while the tolerance carries over.
pub proof fn lemma_transition_tolerance_budget(inst: TSPTWInstance, r: State, s: State, v: usize)
    requires
        is_transition_of(inst, r, s, v),
        s.tolerance >= card_upto(s.maybe(), inst.nb_nodes as int),
    ensures
        r.tolerance >= card_upto(r.maybe(), inst.nb_nodes as int),
{
    let n = inst.nb_nodes as int;
    assert(r.maybe().subset_of(s.maybe())) by {
        match (s.maybe_visit, r.maybe_visit) {
            (Some(x), Some(y)) => {},
            (None, None) => {},
            _ => {},
        }
    }
    lemma_card_subset(r.maybe(), s.maybe(), n);
}
} // verus!
