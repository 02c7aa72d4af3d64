use bitset_fixed::BitSet;
use tsptw::instance::{TSPTWInstance, TimeWindow, MAX_TIME};
use tsptw::model::{Decision, TSPTW};
use tsptw::state::{ElapsedTime, Position, State};

fn mk_instance(d: Vec<Vec<u64>>, tw: Vec<(u64, u64)>) -> TSPTWInstance {
    let windows = tw
        .into_iter()
        .map(|(earliest, latest)| TimeWindow { earliest, latest })
        .collect();
    TSPTWInstance::new(d, windows).unwrap()
}

fn bits(n: usize, members: &[usize]) -> BitSet {
    let mut b = BitSet::new(n);
    for &m in members {
        b.set(m, true);
    }
    b
}

/// The 3-node instance used by the concrete tour scenario, with distances
/// scaled by ten thousand as the reference formatting convention does.
fn scenario_instance() -> TSPTWInstance {
    mk_instance(
        vec![
            vec![0, 50000, 70000],
            vec![50000, 0, 30000],
            vec![70000, 30000, 0],
        ],
        vec![(0, 1000000), (0, 1000000), (0, 1000000)],
    )
}

#[test]
fn instance_rejects_empty_matrix() {
    assert!(TSPTWInstance::new(vec![], vec![]).is_none());
}

#[test]
fn instance_rejects_non_square_matrix() {
    let r = TSPTWInstance::new(
        vec![vec![0, 1], vec![1]],
        vec![
            TimeWindow { earliest: 0, latest: 5 },
            TimeWindow { earliest: 0, latest: 5 },
        ],
    );
    assert!(r.is_none());
}

#[test]
fn instance_rejects_window_count_mismatch() {
    let r = TSPTWInstance::new(
        vec![vec![0, 1], vec![1, 0]],
        vec![TimeWindow { earliest: 0, latest: 5 }],
    );
    assert!(r.is_none());
}

#[test]
fn instance_rejects_inverted_window() {
    let r = TSPTWInstance::new(
        vec![vec![0, 1], vec![1, 0]],
        vec![
            TimeWindow { earliest: 0, latest: 5 },
            TimeWindow { earliest: 6, latest: 5 },
        ],
    );
    assert!(r.is_none());
}

#[test]
fn instance_rejects_oversized_distance() {
    let r = TSPTWInstance::new(
        vec![vec![0, MAX_TIME + 1], vec![1, 0]],
        vec![
            TimeWindow { earliest: 0, latest: 5 },
            TimeWindow { earliest: 0, latest: 5 },
        ],
    );
    assert!(r.is_none());
}

#[test]
fn instance_accepts_valid_data() {
    let inst = scenario_instance();
    assert_eq!(inst.nb_nodes, 3);
    assert_eq!(inst.distance(0, 2), 70000);
    assert_eq!(inst.window(1).latest, 1000000);
}

#[test]
fn initial_state_mandates_all_but_the_depot() {
    let pb = TSPTW::new(scenario_instance());
    let s = pb.initial_state();
    match s.position {
        Position::Node(i) => assert_eq!(i, 0),
        Position::Virtual(_) => panic!("initial position must be concrete"),
    }
    assert_eq!(s.elapsed, ElapsedTime::FixedAmount { duration: 0 });
    assert!(!s.must_visit[0]);
    assert!(s.must_visit[1]);
    assert!(s.must_visit[2]);
    assert!(s.maybe_visit.is_none());
    assert_eq!(s.depth, 0);
    assert_eq!(s.tolerance, 0);
    assert_eq!(pb.nb_vars(), 3);
    assert_eq!(pb.initial_value(), 0);
}

#[test]
fn domain_lists_mandatory_nodes_in_order() {
    let pb = TSPTW::new(scenario_instance());
    let s = pb.initial_state();
    assert_eq!(pb.domain_of(&s, 0), vec![1, 2]);
}

#[test]
fn domain_appends_reachable_optional_nodes() {
    let inst = mk_instance(
        vec![
            vec![0, 5, 7, 9],
            vec![5, 0, 3, 4],
            vec![7, 3, 0, 2],
            vec![9, 4, 2, 0],
        ],
        vec![(0, 100), (0, 100), (0, 100), (0, 100)],
    );
    let pb = TSPTW::new(inst);
    let s = State {
        position: Position::Node(0),
        elapsed: ElapsedTime::FixedAmount { duration: 0 },
        must_visit: bits(4, &[1, 3]),
        maybe_visit: Some(bits(4, &[2])),
        depth: 0,
        tolerance: 1,
    };
    assert_eq!(pb.domain_of(&s, 0), vec![1, 3, 2]);
}

#[test]
fn domain_is_empty_when_a_mandatory_node_is_out_of_reach() {
    let inst = mk_instance(
        vec![vec![0, 5, 7], vec![5, 0, 3], vec![7, 3, 0]],
        vec![(0, 100), (0, 4), (0, 100)],
    );
    let pb = TSPTW::new(inst);
    let s = pb.initial_state();
    // Node 1 closes at 4 but the shortest entry takes 5: the whole branch
    // is dead, even though node 2 alone would be reachable.
    assert_eq!(pb.domain_of(&s, 0), Vec::<usize>::new());
}

#[test]
fn final_step_offers_exactly_the_depot() {
    let pb = TSPTW::new(scenario_instance());
    let s = State {
        position: Position::Node(2),
        elapsed: ElapsedTime::FixedAmount { duration: 80000 },
        must_visit: bits(3, &[]),
        maybe_visit: None,
        depth: 2,
        tolerance: 0,
    };
    assert_eq!(pb.domain_of(&s, 2), vec![0]);
}

#[test]
fn final_step_is_empty_when_the_depot_is_out_of_reach() {
    let inst = mk_instance(
        vec![vec![0, 5, 7], vec![5, 0, 3], vec![7, 3, 0]],
        vec![(0, 50), (0, 100), (0, 100)],
    );
    let pb = TSPTW::new(inst);
    let s = State {
        position: Position::Node(2),
        elapsed: ElapsedTime::FixedAmount { duration: 80 },
        must_visit: bits(3, &[]),
        maybe_visit: None,
        depth: 2,
        tolerance: 0,
    };
    assert_eq!(pb.domain_of(&s, 2), Vec::<usize>::new());
}

#[test]
fn can_move_to_uses_the_nearest_candidate() {
    let inst = mk_instance(
        vec![
            vec![0, 5, 7, 100],
            vec![5, 0, 3, 100],
            vec![7, 3, 0, 5],
            vec![100, 100, 5, 0],
        ],
        vec![(0, 1000), (0, 1000), (0, 1000), (0, 50)],
    );
    let pb = TSPTW::new(inst);
    let single = State {
        position: Position::Node(1),
        elapsed: ElapsedTime::FixedAmount { duration: 0 },
        must_visit: bits(4, &[3]),
        maybe_visit: None,
        depth: 2,
        tolerance: 0,
    };
    assert!(!pb.can_move_to(&single, 3));
    let merged = State {
        position: Position::Virtual(bits(4, &[1, 2])),
        elapsed: ElapsedTime::FixedAmount { duration: 0 },
        must_visit: bits(4, &[3]),
        maybe_visit: None,
        depth: 2,
        tolerance: 0,
    };
    assert!(pb.can_move_to(&merged, 3));
}

#[test]
fn transition_moves_and_removes_the_visited_node() {
    let pb = TSPTW::new(scenario_instance());
    let s = pb.initial_state();
    let r = pb.transition(&s, Decision { variable: 0, value: 1 });
    match r.position {
        Position::Node(i) => assert_eq!(i, 1),
        Position::Virtual(_) => panic!("position after a move is concrete"),
    }
    assert_eq!(r.elapsed, ElapsedTime::FixedAmount { duration: 50000 });
    assert!(!r.must_visit[1]);
    assert!(r.must_visit[2]);
    assert!(r.maybe_visit.is_none());
    assert_eq!(r.depth, 1);
    assert_eq!(r.tolerance, 0);
}

#[test]
fn transition_clips_a_merged_arrival_window() {
    let inst = mk_instance(
        vec![
            vec![0, 5, 7, 9],
            vec![5, 0, 3, 8],
            vec![7, 3, 0, 2],
            vec![9, 8, 2, 0],
        ],
        vec![(0, 100), (0, 100), (0, 100), (4, 9)],
    );
    let pb = TSPTW::new(inst);
    let s = State {
        position: Position::Virtual(bits(4, &[1, 2])),
        elapsed: ElapsedTime::FixedAmount { duration: 1 },
        must_visit: bits(4, &[3]),
        maybe_visit: None,
        depth: 2,
        tolerance: 2,
    };
    // Arrival spans [1+2, 1+8] = [3, 9]; clipping to [4, 9] raises the
    // lower end. The tolerance carries over unchanged.
    let r = pb.transition(&s, Decision { variable: 2, value: 3 });
    assert_eq!(r.elapsed, ElapsedTime::FuzzyAmount { earliest: 4, latest: 9 });
    assert_eq!(r.tolerance, 2);
}

#[test]
fn transition_is_deterministic() {
    let pb = TSPTW::new(scenario_instance());
    let s = pb.initial_state();
    let d = Decision { variable: 0, value: 2 };
    let r1 = pb.transition(&s, d);
    let r2 = pb.transition(&s, d);
    match (&r1.position, &r2.position) {
        (Position::Node(a), Position::Node(b)) => assert_eq!(a, b),
        _ => panic!("both successors stand at the same concrete node"),
    }
    assert_eq!(r1.elapsed, r2.elapsed);
    assert_eq!(r1.must_visit, r2.must_visit);
    assert_eq!(r1.maybe_visit, r2.maybe_visit);
    assert_eq!(r1.depth, r2.depth);
    assert_eq!(r1.tolerance, r2.tolerance);
}

#[test]
fn waiting_time_is_charged_to_the_cost() {
    let inst = mk_instance(
        vec![vec![0, 3], vec![3, 0]],
        vec![(0, 100), (10, 10)],
    );
    let pb = TSPTW::new(inst);
    let s = State {
        position: Position::Node(0),
        elapsed: ElapsedTime::FixedAmount { duration: 4 },
        must_visit: bits(2, &[1]),
        maybe_visit: None,
        depth: 0,
        tolerance: 0,
    };
    // Arriving at 4 + 3 = 7 before the window opens at 10 forces waiting
    // 3: the cost charges travel plus waiting, negated.
    assert_eq!(pb.transition_cost(&s, Decision { variable: 0, value: 1 }), -6);
}

#[test]
fn optimal_tour_cost_matches_the_scenario() {
    let pb = TSPTW::new(scenario_instance());
    let mut s = pb.initial_state();
    let mut total: i64 = 0;
    for (var, node) in [(0usize, 1usize), (1, 2), (2, 0)] {
        let d = Decision { variable: var, value: node };
        assert!(pb.domain_of(&s, var).contains(&node));
        total += pb.transition_cost(&s, d);
        s = pb.transition(&s, d);
    }
    assert_eq!(total, -150000);
    assert_eq!(-total / 10000, 15);
}

#[test]
fn distances_from_virtual_positions_take_min_and_max() {
    let inst = mk_instance(
        vec![
            vec![0, 5, 7, 9],
            vec![5, 0, 3, 8],
            vec![7, 3, 0, 2],
            vec![9, 8, 2, 0],
        ],
        vec![(0, 100), (0, 100), (0, 100), (0, 100)],
    );
    let pb = TSPTW::new(inst);
    let s = State {
        position: Position::Virtual(bits(4, &[1, 2])),
        elapsed: ElapsedTime::FixedAmount { duration: 0 },
        must_visit: bits(4, &[3]),
        maybe_visit: None,
        depth: 2,
        tolerance: 0,
    };
    assert_eq!(pb.min_distance_to(&s, 3), 2);
    assert_eq!(pb.max_distance_to(&s, 3), 8);
    assert_eq!(
        pb.arrival_time(&s, 3),
        ElapsedTime::FuzzyAmount { earliest: 2, latest: 8 }
    );
}

#[test]
fn bitset_of_sets_exactly_the_given_members() {
    let b = tsptw::bits::bitset_of(5, &vec![1, 3]);
    assert!(!b[0]);
    assert!(b[1]);
    assert!(!b[2]);
    assert!(b[3]);
    assert!(!b[4]);
}
