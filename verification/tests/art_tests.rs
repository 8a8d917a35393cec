use rart::ArtError;
use rart::FaultZone;
use rart::fscs::FscsArt;
use rart::generate_bounds;
use rart::kdfc::KdfcArt;
use rart::lhs::LhsArt;
use rart::node::Node;
use rart::point::Point;
use rart::rt::Rt;

struct AlwaysHit;

impl FaultZone for AlwaysHit {
    fn find_target(&self, _p: &Point) -> bool {
        true
    }
}

struct NeverHit;

impl FaultZone for NeverHit {
    fn find_target(&self, _p: &Point) -> bool {
        false
    }
}

fn p2(x: i32, y: i32) -> Point {
    Point { coordinates: vec![x, y], n: 2 }
}

fn domain_2d() -> Vec<Vec<i32>> {
    vec![vec![-10, 10], vec![-10, 10]]
}

fn sq_dist_brute(a: &Point, b: &Point) -> u128 {
    let mut sum: u128 = 0;
    for i in 0..a.coordinates.len() {
        let d = a.coordinates[i] as i64 - b.coordinates[i] as i64;
        sum += (d as i128 * d as i128) as u128;
    }
    sum
}

fn min_dist_brute(q: &Point, pts: &[Point]) -> u128 {
    let mut best = u128::MAX;
    for p in pts {
        let d = sq_dist_brute(q, p);
        if d < best {
            best = d;
        }
    }
    best
}

fn collect_points(node: &Node, out: &mut Vec<Point>) {
    if let Some(l) = &node.left {
        collect_points(l, out);
    }
    if let Some(p) = &node.point {
        out.push(p.duplicate());
    }
    if let Some(r) = &node.right {
        collect_points(r, out);
    }
}

fn check_ordering(node: &Node) {
    let p = node.point.as_ref().expect("non-placeholder node must hold a point");
    let split = node.split;
    if let Some(l) = &node.left {
        let mut left_pts = Vec::new();
        collect_points(l, &mut left_pts);
        for lp in &left_pts {
            assert!(lp.coordinates[split] < p.coordinates[split]);
        }
        check_ordering(l);
    }
    if let Some(r) = &node.right {
        let mut right_pts = Vec::new();
        collect_points(r, &mut right_pts);
        for rp in &right_pts {
            assert!(rp.coordinates[split] >= p.coordinates[split]);
        }
        check_ordering(r);
    }
}

/// Deterministic but scattered in-domain points for repeatable tests.
fn scatter(bound: &Vec<Vec<i32>>, k: usize) -> Vec<Point> {
    let n = bound.len();
    let mut pts = Vec::new();
    for t in 0..k {
        let mut coordinates = Vec::new();
        for d in 0..n {
            let lo = bound[d][0] as i64;
            let hi = bound[d][1] as i64;
            let span = (hi - lo) as u64;
            let mix = (t as u64)
                .wrapping_mul(2654435761)
                .wrapping_add((d as u64).wrapping_mul(40503))
                .wrapping_add(17);
            coordinates.push((lo + (mix % span) as i64) as i32);
        }
        pts.push(Point { coordinates, n });
    }
    pts
}

#[test]
fn test_distance_dimension_mismatch() {
    let a = Point::new(2);
    let b = Point::new(3);
    assert_eq!(Point::get_distance(&a, &b), Err(ArtError::DimensionMismatch));
    assert_eq!(Point::get_distance(&b, &a), Err(ArtError::DimensionMismatch));
}

#[test]
fn test_distance_exact_values() {
    let a = p2(0, 0);
    let b = p2(3, 4);
    assert_eq!(Point::get_distance(&a, &b), Ok(25));
    assert_eq!(Point::get_distance(&a, &a), Ok(0));
    let c = Point { coordinates: vec![i32::MIN], n: 1 };
    let d = Point { coordinates: vec![i32::MAX], n: 1 };
    let diff = i32::MAX as i128 - i32::MIN as i128;
    assert_eq!(Point::get_distance(&c, &d), Ok((diff * diff) as u128));
}

#[test]
fn test_with_bound_rejects_malformed_domain() {
    assert!(matches!(
        KdfcArt::with_bound(&vec![vec![5, 5]]),
        Err(ArtError::DomainMalformed)
    ));
    assert!(matches!(
        KdfcArt::with_bound(&vec![vec![0, 10], vec![3, -3]]),
        Err(ArtError::DomainMalformed)
    ));
    assert!(matches!(
        KdfcArt::with_bound(&vec![vec![0, 10, 20]]),
        Err(ArtError::DomainMalformed)
    ));
    assert!(KdfcArt::with_bound(&domain_2d()).is_ok());
}

#[test]
fn test_turn_insertion_2d_structure() {
    let mut tree = KdfcArt::with_bound(&domain_2d()).unwrap();
    tree.insert_point_by_turn(&p2(0, 0));
    tree.insert_point_by_turn(&p2(5, 5));
    tree.insert_point_by_turn(&p2(-5, -5));

    let root = &tree.root;
    assert_eq!(root.point.as_ref().unwrap().coordinates, vec![0, 0]);
    assert_eq!(root.split, 0);

    let right = root.right.as_ref().expect("(5,5) must be the right child");
    assert_eq!(right.point.as_ref().unwrap().coordinates, vec![5, 5]);
    assert_eq!(right.split, 1);

    let left = root.left.as_ref().expect("(-5,-5) must be the left child");
    assert_eq!(left.point.as_ref().unwrap().coordinates, vec![-5, -5]);
    assert_eq!(left.split, 1);
}

#[test]
fn test_size_counts_insertions_both_policies() {
    let bound = domain_2d();
    let pts = scatter(&bound, 40);

    let mut turn_tree = KdfcArt::with_bound(&bound).unwrap();
    let mut strat_tree = KdfcArt::with_bound(&bound).unwrap();
    for (i, p) in pts.iter().enumerate() {
        turn_tree.insert_point_by_turn(p);
        strat_tree.insert_point_by_strategy(p);
        assert_eq!(turn_tree.size, i + 1);
        assert_eq!(strat_tree.size, i + 1);
    }

    let mut reachable = Vec::new();
    collect_points(&turn_tree.root, &mut reachable);
    assert_eq!(reachable.len(), 40);
    reachable.clear();
    collect_points(&strat_tree.root, &mut reachable);
    assert_eq!(reachable.len(), 40);
}

#[test]
fn test_tree_ordering_invariant_both_policies() {
    let bound = domain_2d();
    let pts = scatter(&bound, 60);

    let mut turn_tree = KdfcArt::with_bound(&bound).unwrap();
    let mut strat_tree = KdfcArt::with_bound(&bound).unwrap();
    for p in &pts {
        turn_tree.insert_point_by_turn(p);
        strat_tree.insert_point_by_strategy(p);
    }
    check_ordering(&turn_tree.root);
    check_ordering(&strat_tree.root);
}

#[test]
fn test_exact_query_matches_brute_force() {
    let bound = domain_2d();
    let pts = scatter(&bound, 50);

    let mut strat_tree = KdfcArt::with_bound(&bound).unwrap();
    let mut turn_tree = KdfcArt::with_bound(&bound).unwrap();
    for p in &pts {
        strat_tree.insert_point_by_strategy(p);
        turn_tree.insert_point_by_turn(p);
    }

    let queries = scatter(&bound, 25);
    for q in &queries {
        let expected = min_dist_brute(q, &pts);
        assert_eq!(strat_tree.get_min_dis_by_all(q), expected);
        assert_eq!(turn_tree.get_min_dis_by_all(q), expected);
    }
}

#[test]
fn test_bounded_query_monotone_and_never_underestimates() {
    let bound = domain_2d();
    let pts = scatter(&bound, 50);

    let mut tree = KdfcArt::with_bound(&bound).unwrap();
    for p in &pts {
        tree.insert_point_by_strategy(p);
    }

    let queries = scatter(&bound, 12);
    for q in &queries {
        let exact = tree.get_min_dis_by_all(q);
        let mut prev = u128::MAX;
        for k in 1..=60usize {
            let approx = tree.get_min_dis_by_backtracking(q, k);
            assert!(approx >= exact);
            assert!(approx <= prev);
            prev = approx;
        }
        // A zero budget is never reached by the counter: unlimited visits.
        assert_eq!(tree.get_min_dis_by_backtracking(q, 0), exact);
    }
}

#[test]
fn test_greedy_selection_matches_brute_force_argmax() {
    let bound = domain_2d();
    let pts = scatter(&bound, 30);
    let mut tree = KdfcArt::with_bound(&bound).unwrap();
    for p in &pts {
        tree.insert_point_by_strategy(p);
    }

    let mut cands = scatter(&bound, 9);
    // Force a tie: the last candidate repeats the first.
    let repeat = cands[0].duplicate();
    cands.push(repeat);

    let selected = tree.select_candidate_full(&cands);

    let mut best_idx = 0usize;
    let mut best = min_dist_brute(&cands[0], &pts);
    for (i, c) in cands.iter().enumerate().skip(1) {
        let d = min_dist_brute(c, &pts);
        if best < d {
            best = d;
            best_idx = i;
        }
    }
    assert_eq!(selected, best_idx);
    assert_eq!(min_dist_brute(&cands[selected], &pts), best);
}

#[test]
fn test_find_furthest_candidate_brute_force() {
    let bound = domain_2d();
    let fscs = FscsArt::new();
    let tcp = scatter(&bound, 20);
    let cands = scatter(&bound, 8);

    let selected = fscs.find_furthest_candidate(&tcp, tcp.len(), &cands);

    let mut best_idx = 0usize;
    let mut best = min_dist_brute(&cands[0], &tcp);
    for (i, c) in cands.iter().enumerate().skip(1) {
        let d = min_dist_brute(c, &tcp);
        if best < d {
            best = d;
            best_idx = i;
        }
    }
    assert_eq!(selected, best_idx);
}

#[test]
fn test_find_furthest_candidate_keeps_first_of_ties() {
    let fscs = FscsArt::new();
    let tcp = vec![p2(0, 0)];
    // Two candidates at the same distance from the only generated point.
    let cands = vec![p2(3, 4), p2(4, 3), p2(1, 1)];
    assert_eq!(fscs.find_furthest_candidate(&tcp, 1, &cands), 0);
}

#[test]
fn test_split_select_maximizes_spread() {
    // Axis 0 score: 10 * (1 - 0.25 - 0.25) = 5; axis 1: 10 * (1 - 0.49 - 0.09) = 4.2.
    let boundary = vec![vec![0, 10], vec![0, 10]];
    assert_eq!(KdfcArt::split_select(&boundary, &p2(5, 3)), 0);
    // Axis 0 score 1.8, axis 1 score 5.
    assert_eq!(KdfcArt::split_select(&boundary, &p2(9, 5)), 1);
    // A point on every low edge scores zero everywhere: axis 0 is kept.
    assert_eq!(KdfcArt::split_select(&boundary, &p2(0, 0)), 0);
}

#[test]
fn test_effectiveness_terminates_on_immediate_hit() {
    let bound = domain_2d();

    let mut kdfc = KdfcArt::with_bound(&bound).unwrap();
    assert!(kdfc.test_naive_kdfc_effectiveness(&AlwaysHit, 30));
    assert_eq!(kdfc.size, 1);

    let mut kdfc = KdfcArt::with_bound(&bound).unwrap();
    assert!(kdfc.test_semi_bal_kdfc_effectiveness(&AlwaysHit, 30));
    assert_eq!(kdfc.size, 1);

    let mut fscs = FscsArt::new();
    assert_eq!(fscs.test_fscs_art_effectiveness(&bound, &AlwaysHit, 30), 1);

    let mut random = Rt::new();
    assert_eq!(random.test_rt_effectiveness(&bound, &AlwaysHit, 30), 1);
}

#[test]
fn test_budget_exhaustion_returns_exactly_max_tries() {
    let bound = domain_2d();

    // target_probability 1.0 means a try budget of ceil(30 / 1.0) == 30.
    let max_tries: usize = 30;

    let mut random = Rt::new();
    assert_eq!(random.test_rt_effectiveness(&bound, &NeverHit, max_tries), 30);

    let mut fscs = FscsArt::new();
    assert_eq!(fscs.test_fscs_art_effectiveness(&bound, &NeverHit, 30), 30);

    let mut kdfc = KdfcArt::with_bound(&bound).unwrap();
    assert!(!kdfc.test_naive_kdfc_effectiveness(&NeverHit, max_tries));
    assert_eq!(kdfc.size, 30);

    let mut kdfc = KdfcArt::with_bound(&bound).unwrap();
    assert!(!kdfc.test_semi_bal_kdfc_effectiveness(&NeverHit, max_tries));
    assert_eq!(kdfc.size, 30);

    let mut kdfc = KdfcArt::with_bound(&bound).unwrap();
    let back_num = vec![4i32; 30];
    assert_eq!(
        kdfc.test_lim_bal_kdfc_effectiveness(&NeverHit, &back_num, max_tries),
        Ok(false)
    );
    assert_eq!(kdfc.size, 30);
}

#[test]
fn test_budget_table_undersized_is_reported() {
    let bound = domain_2d();
    let mut kdfc = KdfcArt::with_bound(&bound).unwrap();
    let back_num = vec![4i32; 10];
    assert_eq!(
        kdfc.test_lim_bal_kdfc_effectiveness(&NeverHit, &back_num, 30),
        Err(ArtError::BudgetTableUndersized)
    );
    assert_eq!(kdfc.size, 0);
    assert_eq!(
        kdfc.test_lim_bal_kdfc_efficiency(20, &back_num),
        Err(ArtError::BudgetTableUndersized)
    );
    assert_eq!(kdfc.size, 0);
}

#[test]
fn test_efficiency_drivers_generate_exact_counts() {
    let bound = domain_2d();

    let mut kdfc = KdfcArt::with_bound(&bound).unwrap();
    kdfc.test_naive_kdfc_efficiency(50);
    assert_eq!(kdfc.size, 50);

    let mut kdfc = KdfcArt::with_bound(&bound).unwrap();
    kdfc.test_semi_bal_kdfc_efficiency(50);
    assert_eq!(kdfc.size, 50);

    let mut kdfc = KdfcArt::with_bound(&bound).unwrap();
    let back_num = vec![6i32; 50];
    assert_eq!(kdfc.test_lim_bal_kdfc_efficiency(50, &back_num), Ok(()));
    assert_eq!(kdfc.size, 50);

    let mut fscs = FscsArt::with_n(5);
    fscs.test_fscs_art_efficiency(20, &bound);

    let mut random = Rt::new();
    random.test_random_art_efficiency(100, &bound);
}

#[test]
fn test_generate_rand_p_respects_half_open_domain() {
    // A width-1 interval pins the sampled coordinate to its low end.
    let pinned = vec![vec![5, 6], vec![7, 8]];
    for _ in 0..20 {
        let p = Point::generate_rand_p(&pinned);
        assert_eq!(p.coordinates, vec![5, 7]);
    }
    let bound = domain_2d();
    for _ in 0..200 {
        let p = Point::generate_rand_p(&bound);
        assert_eq!(p.n, 2);
        for d in 0..2 {
            assert!(bound[d][0] <= p.coordinates[d] && p.coordinates[d] < bound[d][1]);
        }
    }
}

#[test]
fn test_generate_bounds_shape() {
    let bounds = generate_bounds(4);
    assert_eq!(bounds.len(), 4);
    for pair in &bounds {
        assert_eq!(pair, &vec![-5000, 5000]);
    }
}

#[test]
fn test_get_tree_path_follows_descent() {
    let mut tree = KdfcArt::with_bound(&domain_2d()).unwrap();
    tree.insert_point_by_turn(&p2(0, 0));
    tree.insert_point_by_turn(&p2(5, 5));
    tree.insert_point_by_turn(&p2(-5, -5));

    // (6, 0) descends right at the root (axis 0: 6 >= 0), then stops at
    // (5, 5), whose right slot (axis 1: 0 < 5 goes left; left is empty).
    let path = tree.get_tree_path(&p2(6, 0));
    let coords: Vec<Vec<i32>> = path
        .iter()
        .map(|n| n.point.as_ref().unwrap().coordinates.clone())
        .collect();
    assert_eq!(coords, vec![vec![0, 0], vec![5, 5]]);

    let path = tree.get_tree_path(&p2(-1, -1));
    let coords: Vec<Vec<i32>> = path
        .iter()
        .map(|n| n.point.as_ref().unwrap().coordinates.clone())
        .collect();
    assert_eq!(coords, vec![vec![0, 0], vec![-5, -5]]);
}

#[test]
fn test_judge_direction_and_cross_check() {
    let mut tree = KdfcArt::with_bound(&domain_2d()).unwrap();
    tree.insert_point_by_turn(&p2(0, 0));
    // Root splits on axis 0 at coordinate 0.
    assert_eq!(tree.judge_direction(&p2(-3, 9), &tree.root), 0);
    assert_eq!(tree.judge_direction(&p2(3, -9), &tree.root), 1);
    assert_eq!(tree.judge_direction(&p2(0, 0), &tree.root), 1);
    // The split line at 0 is within squared distance 9 of x == 2 (gap 4),
    // but not within squared distance 4.
    assert!(tree.is_cross_split_line(&p2(2, 0), 9, &tree.root));
    assert!(!tree.is_cross_split_line(&p2(2, 0), 4, &tree.root));
}

#[test]
fn test_defaults() {
    let kdfc = KdfcArt::new();
    assert_eq!(kdfc.size, 0);
    assert_eq!(kdfc.candidate_num, 10);
    let fscs = FscsArt::new();
    assert_eq!(fscs.cand_num, 10);
    assert_eq!(FscsArt::with_n(7).cand_num, 7);
    let lhs = LhsArt::new();
    assert_eq!(lhs.n_partitions, 10);
    assert!(!lhs.exhaustive);
    assert_eq!(LhsArt::with_partition_count(4).n_partitions, 4);
}
