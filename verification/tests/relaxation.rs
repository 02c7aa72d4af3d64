use bitset_fixed::BitSet;
use tsptw::heuristics::{IncreasingWithDepth, LoadVarsFromDepth, TimesUnassigned};
use tsptw::instance::{TSPTWInstance, TimeWindow};
use tsptw::model::{Decision, TSPTW};
use tsptw::relax::TSPTWRelax;
use tsptw::state::{ElapsedTime, Position, State};

fn mk_instance(d: Vec<Vec<u64>>, tw: Vec<(u64, u64)>) -> TSPTWInstance {
    let windows = tw
        .into_iter()
        .map(|(earliest, latest)| TimeWindow { earliest, latest })
        .collect();
    TSPTWInstance::new(d, windows).unwrap()
}

fn bits(n: usize, members: &[usize]) -> BitSet {
    let mut b = BitSet::new(n);
    for &m in members {
        b.set(m, true);
    }
    b
}

fn square_instance(tw: Vec<(u64, u64)>) -> TSPTWInstance {
    mk_instance(
        vec![
            vec![0, 5, 7, 9],
            vec![5, 0, 3, 8],
            vec![7, 3, 0, 2],
            vec![9, 8, 2, 0],
        ],
        tw,
    )
}

fn wide(n: usize) -> Vec<(u64, u64)> {
    vec![(0, 100); n]
}

fn exact_state(n: usize, pos: usize, e: u64, must: &[usize], depth: usize) -> State {
    State {
        position: Position::Node(pos),
        elapsed: ElapsedTime::FixedAmount { duration: e },
        must_visit: bits(n, must),
        maybe_visit: None,
        depth,
        tolerance: 0,
    }
}

#[test]
fn merging_keeps_the_shared_mandatory_nodes() {
    let pb = TSPTW::new(square_instance(wide(4)));
    let relax = TSPTWRelax::new(&pb);
    let s1 = exact_state(4, 1, 5, &[2, 3], 1);
    let s2 = exact_state(4, 1, 7, &[2], 1);
    let m = relax.merge_states(&vec![s1, s2]);
    assert!(m.must_visit[2]);
    assert!(!m.must_visit[3]);
    let maybe = m.maybe_visit.expect("the disagreement becomes optional");
    assert!(maybe[3]);
    assert!(!maybe[2]);
    assert!(m.tolerance >= 1);
    assert_eq!(m.depth, 1);
    assert_eq!(m.elapsed, ElapsedTime::FuzzyAmount { earliest: 5, latest: 7 });
    match m.position {
        Position::Virtual(b) => {
            assert!(b[1]);
            assert!(!b[0] && !b[2] && !b[3]);
        }
        Position::Node(_) => panic!("a merged position is a candidate set"),
    }
}

#[test]
fn merging_identical_states_stays_exact() {
    let pb = TSPTW::new(square_instance(wide(4)));
    let relax = TSPTWRelax::new(&pb);
    let s1 = exact_state(4, 2, 9, &[1, 3], 1);
    let s2 = exact_state(4, 2, 9, &[1, 3], 1);
    let m = relax.merge_states(&vec![s1, s2]);
    assert_eq!(m.elapsed, ElapsedTime::FixedAmount { duration: 9 });
    assert!(m.maybe_visit.is_none());
    assert_eq!(m.tolerance, 0);
    assert!(m.must_visit[1] && m.must_visit[3]);
}

#[test]
fn merging_unions_positions_and_optional_sets() {
    let pb = TSPTW::new(square_instance(wide(4)));
    let relax = TSPTWRelax::new(&pb);
    let s1 = State {
        position: Position::Node(1),
        elapsed: ElapsedTime::FixedAmount { duration: 3 },
        must_visit: bits(4, &[2]),
        maybe_visit: Some(bits(4, &[3])),
        depth: 1,
        tolerance: 5,
    };
    let s2 = exact_state(4, 2, 4, &[2, 3], 1);
    let m = relax.merge_states(&vec![s1, s2]);
    assert!(m.must_visit[2]);
    assert!(!m.must_visit[3]);
    let maybe = m.maybe_visit.expect("node 3 stays optional");
    assert!(maybe[3]);
    assert_eq!(m.tolerance, 5);
    match m.position {
        Position::Virtual(b) => assert!(b[1] && b[2]),
        Position::Node(_) => panic!("a merged position is a candidate set"),
    }
}

#[test]
fn merging_takes_the_deepest_input() {
    let pb = TSPTW::new(square_instance(wide(4)));
    let relax = TSPTWRelax::new(&pb);
    let s1 = exact_state(4, 1, 5, &[2], 1);
    let s2 = exact_state(4, 3, 6, &[2], 2);
    let m = relax.merge_states(&vec![s1, s2]);
    assert_eq!(m.depth, 2);
}

#[test]
fn relax_edge_keeps_the_cost() {
    let pb = TSPTW::new(square_instance(wide(4)));
    let relax = TSPTWRelax::new(&pb);
    let a = exact_state(4, 1, 5, &[2], 1);
    let b = exact_state(4, 2, 8, &[3], 2);
    let c = exact_state(4, 2, 8, &[3], 2);
    let d = Decision { variable: 1, value: 2 };
    assert_eq!(relax.relax_edge(&a, &b, &c, d, -42), -42);
}

#[test]
fn estimate_sums_cheapest_entries_and_depot_return() {
    let pb = TSPTW::new(mk_instance(
        vec![
            vec![0, 50000, 70000],
            vec![50000, 0, 30000],
            vec![70000, 30000, 0],
        ],
        vec![(0, 1000000), (0, 1000000), (0, 1000000)],
    ));
    let relax = TSPTWRelax::new(&pb);
    let s = exact_state(3, 1, 50000, &[2], 1);
    // Cheapest entry into node 2 is 30000, cheapest depot return from the
    // remaining node is 70000.
    assert_eq!(relax.estimate(&s), -100000);
}

#[test]
fn estimate_signals_an_unreachable_mandatory_node() {
    let pb = TSPTW::new(mk_instance(
        vec![
            vec![0, 50000, 70000],
            vec![50000, 0, 30000],
            vec![70000, 30000, 0],
        ],
        vec![(0, 1000000), (0, 1000000), (0, 10)],
    ));
    let relax = TSPTWRelax::new(&pb);
    let s = exact_state(3, 1, 50000, &[2], 1);
    assert_eq!(relax.estimate(&s), i64::MIN);
}

#[test]
fn estimate_signals_a_missed_depot_deadline() {
    let pb = TSPTW::new(mk_instance(
        vec![
            vec![0, 50000, 70000],
            vec![50000, 0, 30000],
            vec![70000, 30000, 0],
        ],
        vec![(0, 60000), (0, 1000000), (0, 1000000)],
    ));
    let relax = TSPTWRelax::new(&pb);
    let s = exact_state(3, 1, 50000, &[2], 1);
    assert_eq!(relax.estimate(&s), i64::MIN);
}

#[test]
fn estimate_returns_to_the_depot_from_the_position_when_nothing_is_owed() {
    let pb = TSPTW::new(square_instance(wide(4)));
    let relax = TSPTWRelax::new(&pb);
    let s = exact_state(4, 3, 20, &[], 3);
    // No mandatory cost: the depot return comes from the position itself.
    assert_eq!(relax.estimate(&s), -9);
}

#[test]
fn estimate_signals_too_few_reachable_optional_nodes() {
    let pb = TSPTW::new(square_instance(wide(4)));
    let relax = TSPTWRelax::new(&pb);
    let s = State {
        position: Position::Virtual(bits(4, &[1])),
        elapsed: ElapsedTime::FixedAmount { duration: 0 },
        must_visit: bits(4, &[]),
        maybe_visit: Some(bits(4, &[2, 3])),
        depth: 0,
        tolerance: 0,
    };
    // Three non-depot slots remain but only two optional nodes exist.
    assert_eq!(relax.estimate(&s), i64::MIN);
}

#[test]
fn estimate_charges_the_open_slots_with_optional_entries() {
    let pb = TSPTW::new(square_instance(wide(4)));
    let relax = TSPTWRelax::new(&pb);
    let s = State {
        position: Position::Virtual(bits(4, &[1])),
        elapsed: ElapsedTime::FixedAmount { duration: 0 },
        must_visit: bits(4, &[]),
        maybe_visit: Some(bits(4, &[2, 3])),
        depth: 2,
        tolerance: 0,
    };
    // One non-depot slot remains (the final slot is the depot return), so
    // one optional entry of 2 is charged; the cheapest depot return among
    // the optional nodes is 7.
    assert_eq!(relax.estimate(&s), -9);
}

#[test]
fn estimate_takes_the_cheapest_optional_entries_first() {
    let pb = TSPTW::new(mk_instance(
        vec![
            vec![0, 5, 8, 2],
            vec![5, 0, 9, 4],
            vec![8, 9, 0, 3],
            vec![2, 4, 3, 0],
        ],
        wide(4),
    ));
    let relax = TSPTWRelax::new(&pb);
    let s = State {
        position: Position::Virtual(bits(4, &[1])),
        elapsed: ElapsedTime::FixedAmount { duration: 0 },
        must_visit: bits(4, &[]),
        maybe_visit: Some(bits(4, &[2, 3])),
        depth: 2,
        tolerance: 0,
    };
    // One non-depot slot: of the entries 3 (into node 2) and 2 (into node
    // 3), the cheaper one fills it; the cheapest depot return is 2.
    assert_eq!(relax.estimate(&s), -4);
}

#[test]
fn estimate_never_undercuts_a_completion_of_a_merged_in_state() {
    // Merging the two depth-1 successors of the root yields an optional
    // set {1, 2} with elapsed [5, 7]. The bound charges one optional
    // entry (3) plus the cheapest depot return (5). Neither merged-in
    // state has a completion worth more: their values are -10 and -8.
    let pb = TSPTW::new(mk_instance(
        vec![vec![0, 5, 7], vec![5, 0, 3], vec![7, 3, 0]],
        vec![(0, 100), (0, 100), (0, 100)],
    ));
    let relax = TSPTWRelax::new(&pb);
    let root = pb.initial_state();
    let s1 = pb.transition(&root, Decision { variable: 0, value: 1 });
    let s2 = pb.transition(&root, Decision { variable: 0, value: 2 });
    let m = relax.merge_states(&vec![s1.clone(), s2.clone()]);
    let est = relax.estimate(&m);
    assert_eq!(est, -8);
    let t1 = pb.transition(&s1, Decision { variable: 1, value: 2 });
    let v1 = pb.transition_cost(&s1, Decision { variable: 1, value: 2 })
        + pb.transition_cost(&t1, Decision { variable: 2, value: 0 });
    assert_eq!(v1, -10);
    let t2 = pb.transition(&s2, Decision { variable: 1, value: 1 });
    let v2 = pb.transition_cost(&s2, Decision { variable: 1, value: 1 })
        + pb.transition_cost(&t2, Decision { variable: 2, value: 0 });
    assert_eq!(v2, -8);
    assert!(est >= v1 && est >= v2);
}

#[test]
fn estimate_respects_the_tolerance_budget() {
    let tight = vec![(0, 100), (0, 100), (0, 1), (0, 100)];
    let pb = TSPTW::new(square_instance(tight));
    let relax = TSPTWRelax::new(&pb);
    let mut s = State {
        position: Position::Virtual(bits(4, &[1])),
        elapsed: ElapsedTime::FixedAmount { duration: 0 },
        must_visit: bits(4, &[]),
        maybe_visit: Some(bits(4, &[2, 3])),
        depth: 2,
        tolerance: 0,
    };
    // Node 2 cannot meet its deadline even by the cheapest entry: one
    // violation, which a zero budget does not absorb.
    assert_eq!(relax.estimate(&s), i64::MIN);
    s.tolerance = 1;
    // With a budget of one the state stays usable: the single non-depot
    // slot takes the cheaper entry 2, the depot return is 7.
    assert_eq!(relax.estimate(&s), -9);
}

#[test]
fn variable_ordering_is_the_remaining_suffix() {
    let pb = TSPTW::new(mk_instance(
        vec![
            vec![0, 5, 7, 9, 4],
            vec![5, 0, 3, 8, 4],
            vec![7, 3, 0, 2, 4],
            vec![9, 8, 2, 0, 4],
            vec![4, 4, 4, 4, 0],
        ],
        wide(5),
    ));
    let load = LoadVarsFromDepth::new(&pb);
    let s = exact_state(5, 2, 9, &[1, 3], 2);
    assert_eq!(load.variables(&s), vec![2, 3, 4]);
    let init = pb.initial_state();
    assert_eq!(load.variables(&init), vec![0, 1, 2, 3, 4]);
}

#[test]
fn width_grows_with_depth() {
    let pb = TSPTW::new(square_instance(wide(4)));
    let w = IncreasingWithDepth::new(&pb);
    assert_eq!(w.max_width(4), 4);
    assert_eq!(w.max_width(2), 12);
}

#[test]
fn width_scales_the_unassigned_count() {
    let w = TimesUnassigned::new(5);
    assert_eq!(w.max_width(20), 100);
}

#[test]
fn cloned_states_agree_with_their_original() {
    let pb = TSPTW::new(square_instance(wide(4)));
    let s = State {
        position: Position::Virtual(bits(4, &[1, 2])),
        elapsed: ElapsedTime::FuzzyAmount { earliest: 2, latest: 6 },
        must_visit: bits(4, &[3]),
        maybe_visit: Some(bits(4, &[2])),
        depth: 2,
        tolerance: 1,
    };
    let c = s.clone();
    assert_eq!(c.elapsed, s.elapsed);
    assert_eq!(c.must_visit, s.must_visit);
    assert_eq!(c.maybe_visit, s.maybe_visit);
    assert_eq!(c.depth, s.depth);
    assert_eq!(c.tolerance, s.tolerance);
    match (c.position, s.position) {
        (Position::Virtual(a), Position::Virtual(b)) => assert_eq!(a, b),
        _ => panic!("the clone keeps the position's shape"),
    }
    let _ = pb;
}
