//! The relaxation engine: merging a group of states into one
//! over-approximating state, the (identity) edge-cost adjustment, and a
//! cheap optimistic bound on the remaining cost, built from precomputed
//! cheapest-entry edges.

use vstd::prelude::*;

use crate::bits::{bits_of, bit_width, idx_below, bs_new, bs_set, bs_get, bs_clone, bs_or,
    bs_and, bs_xor, bs_count};
use crate::instance::{TSPTWInstance, MAX_TIME, MAX_NODES};
use crate::state::{ElapsedTime, Position, State, norm_range};
use crate::model::{TSPTW, Decision, min_dist_upto, position_min_dist, lemma_min_dist_le};

verus! {

/// Cheapest entry into node `i` among predecessors `t < k`, `t != i`
/// (`u64::MAX` when there is none).
pub open spec fn cheapest_upto(inst: TSPTWInstance, i: int, k: int) -> int
    decreases k,
{
    if k <= 0 {
        u64::MAX as int
    } else {
        let rest = cheapest_upto(inst, i, k - 1);
        if k - 1 != i && inst.d(k - 1, i) < rest {
            inst.d(k - 1, i)
        } else {
            rest
        }
    }
}

/// Cheapest possible entry edge into node `i`: the minimum of `d(j, i)`
/// over all `j != i`.
pub open spec fn cheapest_spec(inst: TSPTWInstance, i: int) -> int {
    cheapest_upto(inst, i, inst.nb_nodes as int)
}

/// The cheapest entry is at most the distance from any one predecessor.
pub proof fn lemma_cheapest_le(inst: TSPTWInstance, i: int, k: int, t: int)
    requires
        0 <= t < k,
        t != i,
    ensures
        cheapest_upto(inst, i, k) <= inst.d(t, i),
    decreases k,
{
    if t < k - 1 {
        lemma_cheapest_le(inst, i, k - 1, t);
    }
}

/// On a two-node-or-larger well-formed instance every cheapest entry is a
/// real distance, hence within `MAX_TIME`.
pub proof fn lemma_cheapest_bound(inst: TSPTWInstance, i: int)
    requires
        inst.wf(),
        inst.nb_nodes >= 2,
        0 <= i < inst.nb_nodes,
    ensures
        0 <= cheapest_spec(inst, i) <= MAX_TIME,
{
    let n = inst.nb_nodes as int;
    let t: int = if i == 0 { 1 } else { 0 };
    lemma_cheapest_le(inst, i, n, t);
    assert(inst.distances@[t]@[i] <= MAX_TIME);
    lemma_cheapest_nonneg(inst, i, n);
}

/// The running cheapest entry is never negative.
pub proof fn lemma_cheapest_nonneg(inst: TSPTWInstance, i: int, k: int)
    ensures
        0 <= cheapest_upto(inst, i, k),
    decreases k,
{
    if k > 0 {
        lemma_cheapest_nonneg(inst, i, k - 1);
    }
}

/// Deepest input of a merge.
pub open spec fn merged_depth(ss: Seq<State>) -> int
    decreases ss.len(),
{
    if ss.len() <= 1 {
        ss[0].depth as int
    } else {
        let r = merged_depth(ss.drop_last());
        if ss.last().depth as int > r {
            ss.last().depth as int
        } else {
            r
        }
    }
}

/// Smallest earliest-elapsed bound among the inputs of a merge.
pub open spec fn merged_earliest(ss: Seq<State>) -> int
    decreases ss.len(),
{
    if ss.len() <= 1 {
        ss[0].elapsed.spec_earliest()
    } else {
        let r = merged_earliest(ss.drop_last());
        if ss.last().elapsed.spec_earliest() < r {
            ss.last().elapsed.spec_earliest()
        } else {
            r
        }
    }
}

/// Largest latest-elapsed bound among the inputs of a merge.
pub open spec fn merged_latest(ss: Seq<State>) -> int
    decreases ss.len(),
{
    if ss.len() <= 1 {
        ss[0].elapsed.spec_latest()
    } else {
        let r = merged_latest(ss.drop_last());
        if ss.last().elapsed.spec_latest() > r {
            ss.last().elapsed.spec_latest()
        } else {
            r
        }
    }
}

/// Largest tolerance among the inputs of a merge.
pub open spec fn max_tolerance(ss: Seq<State>) -> int
    decreases ss.len(),
{
    if ss.len() <= 1 {
        ss[0].tolerance as int
    } else {
        let r = max_tolerance(ss.drop_last());
        if ss.last().tolerance as int > r {
            ss.last().tolerance as int
        } else {
            r
        }
    }
}

/// Nodes that every input still requires.
pub open spec fn inter_musts(ss: Seq<State>) -> Set<int>
    decreases ss.len(),
{
    if ss.len() <= 1 {
        ss[0].must()
    } else {
        inter_musts(ss.drop_last()).intersect(ss.last().must())
    }
}

/// Nodes that some input still requires.
pub open spec fn union_musts(ss: Seq<State>) -> Set<int>
    decreases ss.len(),
{
    if ss.len() <= 1 {
        ss[0].must()
    } else {
        union_musts(ss.drop_last()).union(ss.last().must())
    }
}

/// Nodes that some input holds as optional.
pub open spec fn union_maybes(ss: Seq<State>) -> Set<int>
    decreases ss.len(),
{
    if ss.len() <= 1 {
        ss[0].maybe()
    } else {
        union_maybes(ss.drop_last()).union(ss.last().maybe())
    }
}

/// Union of the inputs' candidate positions.
pub open spec fn union_cands(ss: Seq<State>) -> Set<int>
    decreases ss.len(),
{
    if ss.len() <= 1 {
        ss[0].cands()
    } else {
        union_cands(ss.drop_last()).union(ss.last().cands())
    }
}

/// The merge's ambiguous nodes: required or optional somewhere, but not
/// required everywhere.
pub open spec fn merge_amb(ss: Seq<State>) -> Set<int> {
    union_musts(ss).union(union_maybes(ss)).difference(inter_musts(ss))
}

/// What every input still requires is also required by input `i`.
pub proof fn lemma_inter_subset(ss: Seq<State>, i: int)
    requires
        0 <= i < ss.len(),
    ensures
        inter_musts(ss).subset_of(ss[i].must()),
    decreases ss.len(),
{
    if ss.len() > 1 {
        if i < ss.len() - 1 {
            lemma_inter_subset(ss.drop_last(), i);
        }
    }
}

/// Input `i`'s candidate positions are kept by the merged candidate set.
pub proof fn lemma_union_cands_super(ss: Seq<State>, i: int)
    requires
        0 <= i < ss.len(),
    ensures
        ss[i].cands().subset_of(union_cands(ss)),
    decreases ss.len(),
{
    if ss.len() > 1 {
        if i < ss.len() - 1 {
            lemma_union_cands_super(ss.drop_last(), i);
        }
    }
}

/// Input `i`'s mandatory nodes are kept by the union of mandatory nodes.
pub proof fn lemma_union_musts_super(ss: Seq<State>, i: int)
    requires
        0 <= i < ss.len(),
    ensures
        ss[i].must().subset_of(union_musts(ss)),
    decreases ss.len(),
{
    if ss.len() > 1 {
        if i < ss.len() - 1 {
            lemma_union_musts_super(ss.drop_last(), i);
        }
    }
}

/// Input `i`'s optional nodes are kept by the union of optional nodes.
pub proof fn lemma_union_maybes_super(ss: Seq<State>, i: int)
    requires
        0 <= i < ss.len(),
    ensures
        ss[i].maybe().subset_of(union_maybes(ss)),
    decreases ss.len(),
{
    if ss.len() > 1 {
        if i < ss.len() - 1 {
            lemma_union_maybes_super(ss.drop_last(), i);
        }
    }
}

/// Every merged candidate position comes from one of the inputs.
pub proof fn lemma_union_cands_attained(ss: Seq<State>, c: int)
    requires
        ss.len() >= 1,
        union_cands(ss).contains(c),
    ensures
        exists|i: int| 0 <= i < ss.len() && (#[trigger] ss[i]).cands().contains(c),
    decreases ss.len(),
{
    if ss.len() <= 1 {
        assert(ss[0].cands().contains(c));
    } else {
        if ss.last().cands().contains(c) {
            assert(ss[ss.len() - 1].cands().contains(c));
        } else {
            lemma_union_cands_attained(ss.drop_last(), c);
            let i = choose|i: int| 0 <= i < ss.drop_last().len() && (#[trigger] ss.drop_last()[i])
                .cands().contains(c);
            assert(ss[i].cands().contains(c));
        }
    }
}

/// What every input requires, some input requires.
pub proof fn lemma_inter_subset_union(ss: Seq<State>)
    requires
        ss.len() >= 1,
    ensures
        inter_musts(ss).subset_of(union_musts(ss)),
{
    lemma_inter_subset(ss, 0);
    lemma_union_musts_super(ss, 0);
}

/// The merged elapsed interval covers every input's interval.
pub proof fn lemma_merged_elapsed_bounds(ss: Seq<State>, i: int)
    requires
        0 <= i < ss.len(),
    ensures
        merged_earliest(ss) <= ss[i].elapsed.spec_earliest(),
        merged_latest(ss) >= ss[i].elapsed.spec_latest(),
    decreases ss.len(),
{
    if ss.len() > 1 {
        if i < ss.len() - 1 {
            lemma_merged_elapsed_bounds(ss.drop_last(), i);
        }
    }
}

/// What `merge_states` returns: the over-approximation of a non-empty
/// group of states. The position becomes the union of the inputs'
/// candidates; the elapsed interval spans all inputs (collapsed when it
/// closes to a point); the mandatory set keeps what all inputs require;
/// the ambiguous remainder, when present, becomes the optional set; the
/// depth is the deepest input's; and the tolerance covers both every
/// input's own tolerance and the ambiguity this merge introduces.
pub open spec fn is_merge_of(n: int, m: State, ss: Seq<State>) -> bool {
    let amb = merge_amb(ss);
    &&& m.depth == merged_depth(ss)
    &&& (match m.position {
        Position::Virtual(b) => bits_of(b) == union_cands(ss) && bit_width(b) == n,
        Position::Node(_) => false,
    })
    &&& m.elapsed == norm_range(merged_earliest(ss) as u64, merged_latest(ss) as u64)
    &&& m.must() == inter_musts(ss)
    &&& bit_width(m.must_visit) == n
    &&& (if amb.len() == 0 {
        m.maybe_visit is None
    } else {
        match m.maybe_visit {
            Some(b) => bits_of(b) == amb && bit_width(b) == n,
            None => false,
        }
    })
    &&& m.tolerance == (if max_tolerance(ss) >= amb.len() {
        max_tolerance(ss)
    } else {
        amb.len() as int
    })
}

/// The structure implementing the relaxation: the problem and the
/// precomputed cheapest-entry edge of every node.
pub struct TSPTWRelax<'a> {
    pub pb: &'a TSPTW,
    pub cheapest_edge: Vec<u64>,
}

impl<'a> TSPTWRelax<'a> {
    /// A usable relaxation: well-formed problem, and one cheapest-entry
    /// value per node, each matching its definition.
    pub open spec fn wf(self) -> bool {
        &&& self.pb.wf()
        &&& self.cheapest_edge@.len() == self.pb.instance.nb_nodes
        &&& forall|i: int| 0 <= i < self.pb.instance.nb_nodes
            ==> (#[trigger] self.cheapest_edge@[i]) as int == cheapest_spec(self.pb.instance, i)
    }

    /// Precomputes, once per instance, the cheapest entry into each node.
    pub fn new(pb: &'a TSPTW) -> (r: TSPTWRelax<'a>)
        requires
            pb.wf(),
        ensures
            r.wf(),
            r.pb == pb,
    {
        let n = pb.instance.nb_nodes;
        let mut cheapest: Vec<u64> = Vec::new();
        let mut i: usize = 0;
        while i < n
            invariant
                i <= n,
                n == pb.instance.nb_nodes,
                pb.wf(),
                cheapest@.len() == i,
                forall|t: int| 0 <= t < i ==> (#[trigger] cheapest@[t]) as int == cheapest_spec(
                    pb.instance, t),
            decreases n - i,
        {
            let mut min_i: u64 = u64::MAX;
            let mut j: usize = 0;
            while j < n
                invariant
                    j <= n,
                    i < n,
                    n == pb.instance.nb_nodes,
                    pb.wf(),
                    min_i as int == cheapest_upto(pb.instance, i as int, j as int),
                decreases n - j,
            {
                if j != i {
                    let dji = pb.instance.distance(j, i);
                    if dji < min_i {
                        min_i = dji;
                    }
                }
                j = j + 1;
            }
            cheapest.push(min_i);
            i = i + 1;
        }
        TSPTWRelax { pb, cheapest_edge: cheapest }
    }

    /// The relaxation leaves individual edge costs unchanged.
    pub fn relax_edge(&self, _from: &State, _to: &State, _merged: &State, _d: Decision, cost: i64)
        -> (r: i64)
        ensures
            r == cost,
    {
        cost
    }

    /// Merges a non-empty group of states into one relaxed state that
    /// over-approximates every input.
    pub fn merge_states(&self, states: &Vec<State>) -> (r: State)
        requires
            self.wf(),
            states@.len() >= 1,
            forall|k: int| 0 <= k < states@.len() ==> (#[trigger] states@[k]).wf(
                self.pb.instance.nb_nodes as int),
        ensures
            is_merge_of(self.pb.instance.nb_nodes as int, r, states@),
            r.wf(self.pb.instance.nb_nodes as int),
    {
        let ghost n = self.pb.instance.nb_nodes as int;
        let nn = self.pb.instance.nb_nodes;
        let len = states.len();
        let s0 = &states[0];
        proof {
            assert(states@[0].wf(n));
        }
        let mut depth = s0.depth;
        let mut tol = s0.tolerance;
        let mut earliest = s0.elapsed.earliest();
        let mut latest = s0.elapsed.latest();
        let mut pos = match &s0.position {
            Position::Node(x) => {
                let mut b = bs_new(nn);
                bs_set(&mut b, *x, true);
                proof {
                    assert(bits_of(b) =~= s0.position.cand_set());
                }
                b
            },
            Position::Virtual(b) => bs_clone(b),
        };
        let mut agree = bs_clone(&s0.must_visit);
        let mut union_must = bs_clone(&s0.must_visit);
        let mut union_maybe = match &s0.maybe_visit {
            Some(b) => bs_clone(b),
            None => {
                let b = bs_new(nn);
                proof {
                    assert(bits_of(b) =~= s0.maybe());
                }
                b
            },
        };
        let mut k: usize = 1;
        proof {
            assert(states@.take(1).len() == 1);
            assert(states@.take(1)[0] == states@[0]);
        }
        while k < len
            invariant
                1 <= k <= len,
                len == states@.len(),
                n == self.pb.instance.nb_nodes,
                nn == self.pb.instance.nb_nodes,
                self.wf(),
                forall|t: int| 0 <= t < states@.len() ==> (#[trigger] states@[t]).wf(n),
                depth as int == merged_depth(states@.take(k as int)),
                depth <= n,
                tol as int == max_tolerance(states@.take(k as int)),
                earliest as int == merged_earliest(states@.take(k as int)),
                earliest <= MAX_TIME,
                latest as int == merged_latest(states@.take(k as int)),
                latest <= MAX_TIME,
                bit_width(pos) == n,
                bits_of(pos) == union_cands(states@.take(k as int)),
                bits_of(pos).subset_of(idx_below(n)),
                bit_width(agree) == n,
                bits_of(agree) == inter_musts(states@.take(k as int)),
                bits_of(agree).subset_of(idx_below(n)),
                !bits_of(agree).contains(0),
                bit_width(union_must) == n,
                bits_of(union_must) == union_musts(states@.take(k as int)),
                bits_of(union_must).subset_of(idx_below(n)),
                !bits_of(union_must).contains(0),
                bit_width(union_maybe) == n,
                bits_of(union_maybe) == union_maybes(states@.take(k as int)),
                bits_of(union_maybe).subset_of(idx_below(n)),
                !bits_of(union_maybe).contains(0),
            decreases len - k,
        {
            let ghost prefix = states@.take(k as int);
            let ghost prefix1 = states@.take(k as int + 1);
            proof {
                assert(prefix1.drop_last() =~= prefix);
                assert(prefix1.last() == states@[k as int]);
                assert(states@[k as int].wf(n));
            }
            let sk = &states[k];
            if sk.depth > depth {
                depth = sk.depth;
            }
            if sk.tolerance > tol {
                tol = sk.tolerance;
            }
            let ek = sk.elapsed.earliest();
            if ek < earliest {
                earliest = ek;
            }
            let lk = sk.elapsed.latest();
            if lk > latest {
                latest = lk;
            }
            match &sk.position {
                Position::Node(x) => {
                    let ghost before = bits_of(pos);
                    bs_set(&mut pos, *x, true);
                    proof {
                        assert(bits_of(pos) =~= before.union(sk.position.cand_set()));
                    }
                },
                Position::Virtual(b) => bs_or(&mut pos, b),
            }
            bs_and(&mut agree, &sk.must_visit);
            bs_or(&mut union_must, &sk.must_visit);
            match &sk.maybe_visit {
                Some(b) => bs_or(&mut union_maybe, b),
                None => {
                    proof {
                        assert(bits_of(union_maybe) =~= bits_of(union_maybe).union(sk.maybe()));
                    }
                },
            }
            k = k + 1;
        }
        proof {
            assert(states@.take(len as int) =~= states@);
        }
        let mut amb = bs_clone(&union_maybe);
        bs_or(&mut amb, &union_must);
        bs_xor(&mut amb, &agree);
        proof {
            lemma_inter_subset_union(states@);
            assert(bits_of(amb) =~= merge_amb(states@));
            crate::bits::lemma_idx_below_finite(n);
            vstd::set_lib::lemma_len_subset(merge_amb(states@), idx_below(n));
        }
        let cnt = bs_count(&amb);
        let maybe_visit = if cnt > 0 {
            Some(amb)
        } else {
            proof {
                merge_amb(states@).lemma_len0_is_empty();
            }
            None
        };
        let tolerance = if tol >= cnt {
            tol
        } else {
            cnt
        };
        let elapsed = if earliest == latest {
            ElapsedTime::FixedAmount { duration: earliest }
        } else {
            ElapsedTime::FuzzyAmount { earliest, latest }
        };
        let r = State {
            position: Position::Virtual(pos),
            elapsed,
            must_visit: agree,
            maybe_visit,
            depth,
            tolerance,
        };
        proof {
            lemma_inter_subset(states@, 0);
            lemma_union_cands_super(states@, 0);
            assert(exists|t: int| bits_of(pos).contains(t)) by {
                match states@[0].position {
                    Position::Node(x) => {
                        assert(states@[0].cands().contains(x as int));
                        assert(bits_of(pos).contains(x as int));
                    },
                    Position::Virtual(b) => {
                        let w = choose|t: int| bits_of(b).contains(t);
                        assert(states@[0].cands().contains(w));
                        assert(bits_of(pos).contains(w));
                    },
                }
            }
            assert forall|c: int| r.cands().contains(c) implies !r.must().contains(c) by {
                if r.must().contains(c) {
                    lemma_union_cands_attained(states@, c);
                    let i = choose|i: int| 0 <= i < states@.len() && (#[trigger] states@[i])
                        .cands().contains(c);
                    lemma_inter_subset(states@, i);
                    assert(states@[i].must().contains(c));
                    match states@[i].position {
                        Position::Node(x) => {},
                        Position::Virtual(b) => {},
                    }
                }
            }
            assert(r.wf(n));
        }
        r
    }
}

/// Sum of a sequence of 64-bit values, as a mathematical integer.
pub open spec fn seq_sum64(s: Seq<u64>) -> int
    decreases s.len(),
{
    if s.len() == 0 {
        0
    } else {
        s[0] + seq_sum64(s.drop_first())
    }
}

/// Appending a value adds it to the sum.
pub proof fn lemma_seq_sum64_push(s: Seq<u64>, x: u64)
    ensures
        seq_sum64(s.push(x)) == seq_sum64(s) + x,
    decreases s.len(),
{
    if s.len() == 0 {
        assert(s.push(x).len() == 1);
        assert(s.push(x)[0] == x);
        assert(s.push(x).drop_first() =~= Seq::<u64>::empty());
        assert(seq_sum64(Seq::<u64>::empty()) == 0);
        assert(seq_sum64(s.push(x)) == x);
    } else {
        assert(s.push(x)[0] == s[0]);
        assert(s.push(x).drop_first() =~= s.drop_first().push(x));
        lemma_seq_sum64_push(s.drop_first(), x);
        assert(seq_sum64(s.push(x)) == s[0] + seq_sum64(s.drop_first().push(x)));
    }
}

/// The elapsed lower bound plus the cheapest entry already misses `t`'s
/// deadline: `t` can no longer be visited from this state.
pub open spec fn violates(inst: TSPTWInstance, s: State, t: int) -> bool {
    s.elapsed.spec_earliest() + cheapest_spec(inst, t) > inst.tw(t).latest
}

/// Number of members of `set` below `k`.
pub open spec fn card_upto(set: Set<int>, k: int) -> int
    decreases k,
{
    if k <= 0 {
        0
    } else {
        card_upto(set, k - 1) + (if set.contains(k - 1) {
            1int
        } else {
            0int
        })
    }
}

/// How many members of `set` below `k` miss their deadline via the
/// cheapest entry.
pub open spec fn count_viol_upto(inst: TSPTWInstance, s: State, set: Set<int>, k: int) -> int
    decreases k,
{
    if k <= 0 {
        0
    } else {
        count_viol_upto(inst, s, set, k - 1) + (if set.contains(k - 1) && violates(inst, s, k - 1) {
            1int
        } else {
            0int
        })
    }
}

/// Sum of the cheapest entries of the members of `set` below `k`.
pub open spec fn sum_cheapest_upto(inst: TSPTWInstance, set: Set<int>, k: int) -> int
    decreases k,
{
    if k <= 0 {
        0
    } else {
        sum_cheapest_upto(inst, set, k - 1) + (if set.contains(k - 1) {
            cheapest_spec(inst, k - 1)
        } else {
            0int
        })
    }
}

/// The cheapest entries of the members of `set` below `k`, in increasing
/// node order.
pub open spec fn cheapest_vals_upto(inst: TSPTWInstance, set: Set<int>, k: int) -> Seq<u64>
    decreases k,
{
    if k <= 0 {
        Seq::<u64>::empty()
    } else if set.contains(k - 1) {
        cheapest_vals_upto(inst, set, k - 1).push(cheapest_spec(inst, k - 1) as u64)
    } else {
        cheapest_vals_upto(inst, set, k - 1)
    }
}

/// One collected value per member.
pub proof fn lemma_cheapest_vals_len(inst: TSPTWInstance, set: Set<int>, k: int)
    ensures
        cheapest_vals_upto(inst, set, k).len() == card_upto(set, k),
        0 <= card_upto(set, k),
        k >= 0 ==> card_upto(set, k) <= k,
    decreases k,
{
    if k > 0 {
        lemma_cheapest_vals_len(inst, set, k - 1);
    }
}

/// A non-zero cheapest-entry sum names at least one member.
pub proof fn lemma_sum_cheapest_member(inst: TSPTWInstance, set: Set<int>, k: int)
    requires
        sum_cheapest_upto(inst, set, k) != 0,
    ensures
        exists|t: int| set.contains(t) && 0 <= t < k,
    decreases k,
{
    if k > 0 {
        if set.contains(k - 1) {
            assert(set.contains(k - 1) && 0 <= k - 1 < k);
        } else {
            lemma_sum_cheapest_member(inst, set, k - 1);
        }
    }
}

/// A non-zero member count names at least one member.
pub proof fn lemma_card_member(set: Set<int>, k: int)
    requires
        card_upto(set, k) != 0,
    ensures
        exists|t: int| set.contains(t) && 0 <= t < k,
    decreases k,
{
    if k > 0 {
        if set.contains(k - 1) {
            assert(set.contains(k - 1) && 0 <= k - 1 < k);
        } else {
            lemma_card_member(set, k - 1);
        }
    }
}

/// The ascending-order comparison the bound sorts by.
pub open spec fn u64_le() -> spec_fn(u64, u64) -> bool {
    |a: u64, b: u64| a <= b
}

/// The ascending-order comparison is a total ordering.
pub proof fn lemma_u64_le_total()
    ensures
        vstd::relations::total_ordering(u64_le()),
{
    assert forall|x: u64, y: u64, z: u64| #[trigger] u64_le()(x, y) && #[trigger] u64_le()(y, z)
        implies u64_le()(x, z) by {
    }
}

/// Last steps of the bound: when no cost was accrued the depot-return
/// distance falls back to the current position, and the depot deadline is
/// tested against the earliest possible completion.
pub open spec fn estimate_finish(inst: TSPTWInstance, s: State, mand: int, btd: int) -> int {
    let pd = position_min_dist(inst, s.position, 0);
    let btd2 = if mand == 0 && pd < btd {
        pd
    } else {
        btd
    };
    let total = mand + btd2;
    if s.elapsed.spec_earliest() + total > inst.tw(0).latest {
        i64::MIN as int
    } else {
        -total
    }
}

/// What `estimate` returns: the minimum-value pruning signal when some
/// mandatory node can no longer meet its deadline, when fewer reachable
/// optional nodes remain than open slots, when the optional violations
/// exceed the tolerance budget, or when the depot deadline cannot be met;
/// otherwise the negated sum of the cheapest entries of every mandatory
/// node, of the cheapest optional entries filling the remaining non-depot
/// decision slots (the final slot is the depot return and pays the
/// depot-return term, never an optional entry), and of the cheapest
/// return to the depot.
pub open spec fn estimate_spec(inst: TSPTWInstance, s: State) -> int {
    let n = inst.nb_nodes as int;
    if exists|t: int| s.must().contains(t) && violates(inst, s, t) {
        i64::MIN as int
    } else {
        let slots = n - 1 - s.depth;
        let mc = card_upto(s.must(), n);
        let ct = if mc <= slots {
            slots - mc
        } else {
            0
        };
        let mand0 = sum_cheapest_upto(inst, s.must(), n);
        let btd0 = min_dist_upto(inst, s.must(), 0, n);
        if s.maybe_visit is Some {
            let nmb = card_upto(s.maybe(), n);
            let viol = count_viol_upto(inst, s, s.maybe(), n);
            let mdep = min_dist_upto(inst, s.maybe(), 0, n);
            let btd1 = if mdep < btd0 {
                mdep
            } else {
                btd0
            };
            if nmb - viol < ct {
                i64::MIN as int
            } else if viol > s.tolerance {
                i64::MIN as int
            } else {
                let sorted = cheapest_vals_upto(inst, s.maybe(), n).sort_by(u64_le());
                estimate_finish(inst, s, mand0 + seq_sum64(sorted.take(ct)), btd1)
            }
        } else {
            estimate_finish(inst, s, mand0, btd0)
        }
    }
}

/// Merges two ascending runs into one.
fn merge_sorted(a: Vec<u64>, b: Vec<u64>) -> (r: Vec<u64>)
    requires
        vstd::relations::sorted_by(a@, u64_le()),
        vstd::relations::sorted_by(b@, u64_le()),
    ensures
        vstd::relations::sorted_by(r@, u64_le()),
        r@.to_multiset() == a@.to_multiset().add(b@.to_multiset()),
        r@.len() == a@.len() + b@.len(),
{
    broadcast use vstd::seq_lib::group_to_multiset_ensures;

    let mut r: Vec<u64> = Vec::new();
    let mut i: usize = 0;
    let mut j: usize = 0;
    proof {
        assert(a@.take(0) =~= Seq::<u64>::empty());
        assert(b@.take(0) =~= Seq::<u64>::empty());
        assert(r@.to_multiset() =~= a@.take(0).to_multiset().add(b@.take(0).to_multiset()));
    }
    while i < a.len() || j < b.len()
        invariant
            i <= a@.len(),
            j <= b@.len(),
            vstd::relations::sorted_by(a@, u64_le()),
            vstd::relations::sorted_by(b@, u64_le()),
            r@.len() == i + j,
            vstd::relations::sorted_by(r@, u64_le()),
            r@.to_multiset() == a@.take(i as int).to_multiset().add(
                b@.take(j as int).to_multiset()),
            forall|q: int, w: int| #![trigger r@[q], a@[w]] 0 <= q < r@.len() && i <= w
                < a@.len() ==> r@[q] <= a@[w],
            forall|q: int, w: int| #![trigger r@[q], b@[w]] 0 <= q < r@.len() && j <= w
                < b@.len() ==> r@[q] <= b@[w],
        decreases a@.len() + b@.len() - i - j,
    {
        broadcast use vstd::seq_lib::group_to_multiset_ensures;

        let take_a = if i < a.len() {
            j >= b.len() || a[i] <= b[j]
        } else {
            false
        };
        let ghost rpre = r@;
        if take_a {
            let x = a[i];
            r.push(x);
            i = i + 1;
            proof {
                assert(a@.take(i as int) =~= a@.take(i as int - 1).push(x));
                assert(r@.to_multiset() =~= a@.take(i as int).to_multiset().add(
                    b@.take(j as int).to_multiset()));
                assert forall|p: int, q: int| 0 <= p < q < r@.len() implies u64_le()(
                    r@[p], r@[q]) by {
                    if q == r@.len() - 1 {
                        assert(rpre[p] <= a@[i - 1]);
                    } else {
                        assert(u64_le()(rpre[p], rpre[q]));
                    }
                }
                assert forall|q: int, w: int| 0 <= q < r@.len() && i <= w < a@.len()
                    implies r@[q] <= a@[w] by {
                    if q == r@.len() - 1 {
                        assert(u64_le()(a@[i - 1], a@[w]));
                    }
                }
                assert forall|q: int, w: int| 0 <= q < r@.len() && j <= w < b@.len()
                    implies r@[q] <= b@[w] by {
                    if q == r@.len() - 1 {
                        if j < w {
                            assert(u64_le()(b@[j as int], b@[w]));
                        }
                    }
                }
            }
        } else {
            let x = b[j];
            r.push(x);
            j = j + 1;
            proof {
                assert(b@.take(j as int) =~= b@.take(j as int - 1).push(x));
                assert(r@.to_multiset() =~= a@.take(i as int).to_multiset().add(
                    b@.take(j as int).to_multiset()));
                assert forall|p: int, q: int| 0 <= p < q < r@.len() implies u64_le()(
                    r@[p], r@[q]) by {
                    if q == r@.len() - 1 {
                        assert(rpre[p] <= b@[j - 1]);
                    } else {
                        assert(u64_le()(rpre[p], rpre[q]));
                    }
                }
                assert forall|q: int, w: int| 0 <= q < r@.len() && j <= w < b@.len()
                    implies r@[q] <= b@[w] by {
                    if q == r@.len() - 1 {
                        assert(u64_le()(b@[j - 1], b@[w]));
                    }
                }
                assert forall|q: int, w: int| 0 <= q < r@.len() && i <= w < a@.len()
                    implies r@[q] <= a@[w] by {
                    if q == r@.len() - 1 {
                        if i < w {
                            assert(u64_le()(a@[i as int], a@[w]));
                        }
                    }
                }
            }
        }
    }
    proof {
        assert(a@.take(a@.len() as int) =~= a@);
        assert(b@.take(b@.len() as int) =~= b@);
    }
    r
}

/// Sorts the collected cheapest entries ascending by merging sorted
/// halves.
fn sort_u64(v: Vec<u64>) -> (r: Vec<u64>)
    ensures
        vstd::relations::sorted_by(r@, u64_le()),
        r@.to_multiset() == v@.to_multiset(),
        r@.len() == v@.len(),
    decreases v@.len(),
{
    let ghost orig = v@;
    if v.len() <= 1 {
        return v;
    }
    let mut left = v;
    let mid = left.len() / 2;
    let right = left.split_off(mid);
    proof {
        vstd::seq_lib::lemma_multiset_commutative(orig.subrange(0, mid as int),
            orig.subrange(mid as int, orig.len() as int));
        assert(orig.subrange(0, mid as int) + orig.subrange(mid as int, orig.len() as int)
            =~= orig);
    }
    let ls = sort_u64(left);
    let rs = sort_u64(right);
    let r = merge_sorted(ls, rs);
    proof {
        assert(r@.to_multiset() =~= orig.to_multiset());
    }
    r
}


impl<'a> TSPTWRelax<'a> {
    /// Optimistic bound on the remaining negated cost from `state`, used
    /// for pruning: `i64::MIN` signals an infeasible state, any other
    /// value is the negated structural lower bound on the distance still
    /// to be travelled.
    pub fn estimate(&self, state: &State) -> (r: i64)
        requires
            self.wf(),
            state.wf(self.pb.instance.nb_nodes as int),
        ensures
            r as int == estimate_spec(self.pb.instance, *state),
    {
        let ghost inst = self.pb.instance;
        let ghost n = self.pb.instance.nb_nodes as int;
        let nn = self.pb.instance.nb_nodes;
        let e0 = state.elapsed.earliest();
        let mut mandatory: u64 = 0;
        let mut back_to_depot: u64 = u64::MAX;
        let mut mc: usize = 0;
        let mut i: usize = 0;
        while i < nn
            invariant
                i <= nn,
                nn == self.pb.instance.nb_nodes,
                inst == self.pb.instance,
                n == nn as int,
                self.wf(),
                state.wf(n),
                e0 as int == state.elapsed.spec_earliest(),
                e0 <= MAX_TIME,
                mandatory as int == sum_cheapest_upto(inst, state.must(), i as int),
                mandatory as int <= (i as int) * MAX_TIME,
                back_to_depot as int == min_dist_upto(inst, state.must(), 0, i as int),
                mc as int == card_upto(state.must(), i as int),
                mc <= i,
                forall|t: int| 0 <= t < i && state.must().contains(t) ==> !violates(
                    inst, *state, t),
            decreases nn - i,
        {
            if bs_get(&state.must_visit, i) {
                proof {
                    assert(state.must().contains(i as int));
                    assert(idx_below(n).contains(i as int));
                    lemma_cheapest_bound(inst, i as int);
                    assert(self.cheapest_edge@[i as int] as int == cheapest_spec(inst, i as int));
                    assert((i as int + 1) * MAX_TIME == (i as int) * MAX_TIME + MAX_TIME)
                        by (nonlinear_arith);
                }
                let ce = self.cheapest_edge[i];
                let twl = self.pb.instance.window(i).latest;
                if e0 + ce > twl {
                    proof {
                        assert(violates(inst, *state, i as int));
                    }
                    return i64::MIN;
                }
                let d0 = self.pb.instance.distance(i, 0);
                mandatory = mandatory + ce;
                if d0 < back_to_depot {
                    back_to_depot = d0;
                }
                mc = mc + 1;
            } else {
                proof {
                    assert((i as int + 1) * MAX_TIME == (i as int) * MAX_TIME + MAX_TIME)
                        by (nonlinear_arith);
                }
            }
            i = i + 1;
        }
        proof {
            assert(!(exists|t: int| state.must().contains(t) && violates(inst, *state, t))) by {
                assert forall|t: int| state.must().contains(t) implies !violates(inst, *state, t)
                    by {
                    assert(idx_below(n).contains(t));
                }
            }
        }
        let remaining = nn - state.depth;
        let slots = if remaining >= 1 {
            remaining - 1
        } else {
            0
        };
        let ct = if mc <= slots {
            slots - mc
        } else {
            0
        };
        let ghost mand0 = mandatory as int;
        let ghost btd0 = back_to_depot as int;
        match &state.maybe_visit {
            Some(maybes) => {
                let mut vals: Vec<u64> = Vec::new();
                let mut viol: usize = 0;
                let mut i: usize = 0;
                while i < nn
                    invariant
                        i <= nn,
                        nn == self.pb.instance.nb_nodes,
                        inst == self.pb.instance,
                        n == nn as int,
                        self.wf(),
                        state.wf(n),
                        state.maybe_visit == Some(*maybes),
                        bit_width(*maybes) == n,
                        e0 as int == state.elapsed.spec_earliest(),
                        e0 <= MAX_TIME,
                        vals@ == cheapest_vals_upto(inst, state.maybe(), i as int),
                        forall|q: int| 0 <= q < vals@.len() ==> (#[trigger] vals@[q]) <= MAX_TIME,
                        viol as int == count_viol_upto(inst, *state, state.maybe(), i as int),
                        viol <= vals@.len(),
                        vals@.len() <= i,
                        vals@.len() as int == card_upto(state.maybe(), i as int),
                        back_to_depot as int == (if min_dist_upto(inst, state.maybe(), 0, i as int)
                            < btd0 {
                            min_dist_upto(inst, state.maybe(), 0, i as int)
                        } else {
                            btd0
                        }),
                    decreases nn - i,
                {
                    if bs_get(maybes, i) {
                        proof {
                            assert(state.maybe().contains(i as int));
                            assert(idx_below(n).contains(i as int));
                            lemma_cheapest_bound(inst, i as int);
                            assert(self.cheapest_edge@[i as int] as int == cheapest_spec(
                                inst, i as int));
                        }
                        let ce = self.cheapest_edge[i];
                        vals.push(ce);
                        let d0 = self.pb.instance.distance(i, 0);
                        if d0 < back_to_depot {
                            back_to_depot = d0;
                        }
                        let twl = self.pb.instance.window(i).latest;
                        if e0 + ce > twl {
                            viol = viol + 1;
                            proof {
                                assert(violates(inst, *state, i as int));
                            }
                        } else {
                            proof {
                                assert(!violates(inst, *state, i as int));
                            }
                        }
                    }
                    i = i + 1;
                }
                if vals.len() - viol < ct {
                    return i64::MIN;
                }
                if viol > state.tolerance {
                    return i64::MIN;
                }
                let ghost pre_sort = vals@;
                let sorted = sort_u64(vals);
                proof {
                    broadcast use vstd::seq_lib::group_to_multiset_ensures;

                    lemma_u64_le_total();
                    pre_sort.lemma_sort_by_ensures(u64_le());
                    vstd::seq_lib::lemma_sorted_unique(sorted@, pre_sort.sort_by(u64_le()),
                        u64_le());
                    assert(sorted@ == cheapest_vals_upto(inst, state.maybe(), n).sort_by(
                        u64_le()));
                    assert(sorted@.to_multiset().len() == pre_sort.to_multiset().len());
                    assert forall|q: int| 0 <= q < sorted@.len() implies (#[trigger] sorted@[q])
                        <= MAX_TIME by {
                        assert(sorted@.to_multiset().contains(sorted@[q]));
                        assert(pre_sort.to_multiset().count(sorted@[q]) > 0);
                        assert(pre_sort.contains(sorted@[q]));
                        let w = choose|w: int| 0 <= w < pre_sort.len() && pre_sort[w]
                            == sorted@[q];
                        assert(pre_sort[w] <= MAX_TIME);
                    }
                    lemma_cheapest_vals_len(inst, state.maybe(), n);
                    assert(sorted@.len() <= nn);
                }
                let mut extra: u64 = 0;
                let mut idx: usize = 0;
                while idx < ct
                    invariant
                        idx <= ct,
                        ct <= sorted@.len(),
                        sorted@.len() <= nn,
                        nn <= MAX_NODES,
                        extra as int == seq_sum64(sorted@.take(idx as int)),
                        extra as int <= (idx as int) * MAX_TIME,
                        forall|q: int| 0 <= q < sorted@.len() ==> (#[trigger] sorted@[q])
                            <= MAX_TIME,
                    decreases ct - idx,
                {
                    proof {
                        assert(sorted@.take(idx as int + 1) =~= sorted@.take(idx as int).push(
                            sorted@[idx as int]));
                        lemma_seq_sum64_push(sorted@.take(idx as int), sorted@[idx as int]);
                        assert((idx as int + 1) * MAX_TIME == (idx as int) * MAX_TIME + MAX_TIME)
                            by (nonlinear_arith);
                    }
                    extra = extra + sorted[idx];
                    idx = idx + 1;
                }
                mandatory = mandatory + extra;
                proof {
                    assert(mandatory as int == mand0 + seq_sum64(sorted@.take(ct as int)));
                    if mandatory != 0 {
                        if mand0 != 0 {
                            lemma_sum_cheapest_member(inst, state.must(), n);
                            let t = choose|t: int| state.must().contains(t) && 0 <= t < n;
                            lemma_min_dist_le(inst, state.must(), 0, n, t);
                            assert(idx_below(n).contains(t));
                            assert(inst.distances@[t]@[0] <= MAX_TIME);
                        } else {
                            assert(seq_sum64(sorted@.take(ct as int)) != 0);
                            assert(sorted@.len() > 0);
                            lemma_card_member(state.maybe(), n);
                            let t = choose|t: int| state.maybe().contains(t) && 0 <= t < n;
                            lemma_min_dist_le(inst, state.maybe(), 0, n, t);
                            assert(idx_below(n).contains(t));
                            assert(inst.distances@[t]@[0] <= MAX_TIME);
                        }
                        assert(back_to_depot <= MAX_TIME);
                    }
                }
                self.estimate_finish_exec(state, mandatory, back_to_depot)
            },
            None => {
                proof {
                    if mandatory != 0 {
                        lemma_sum_cheapest_member(inst, state.must(), n);
                        let t = choose|t: int| state.must().contains(t) && 0 <= t < n;
                        lemma_min_dist_le(inst, state.must(), 0, n, t);
                        assert(idx_below(n).contains(t));
                        assert(inst.distances@[t]@[0] <= MAX_TIME);
                        assert(back_to_depot <= MAX_TIME);
                    }
                }
                self.estimate_finish_exec(state, mandatory, back_to_depot)
            },
        }
    }

    /// Shared tail of the bound: depot-return fallback and deadline test.
    fn estimate_finish_exec(&self, state: &State, mandatory: u64, back_to_depot: u64) -> (r: i64)
        requires
            self.wf(),
            state.wf(self.pb.instance.nb_nodes as int),
            mandatory as int <= 2 * (self.pb.instance.nb_nodes as int) * MAX_TIME,
            mandatory != 0 ==> back_to_depot <= MAX_TIME,
        ensures
            r as int == estimate_finish(self.pb.instance, *state, mandatory as int,
                back_to_depot as int),
    {
        let ghost inst = self.pb.instance;
        let mut btd = back_to_depot;
        if mandatory == 0 {
            let pd = self.pb.min_distance_to(state, 0);
            if pd < btd {
                btd = pd;
            }
        }
        proof {
            assert(btd <= MAX_TIME);
        }
        let total = mandatory + btd;
        let earliest_arrival = state.elapsed.earliest() + total;
        let latest_deadline = self.pb.instance.window(0).latest;
        if earliest_arrival > latest_deadline {
            i64::MIN
        } else {
            -(total as i64)
        }
    }
}
} // verus!
