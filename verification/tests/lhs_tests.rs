use rart::FaultZone;
use rart::lhs::LhsArt;
use rart::point::Point;

struct AlwaysHitLhs;

impl FaultZone for AlwaysHitLhs {
    fn find_target(&self, _p: &Point) -> bool {
        true
    }
}

struct NeverHitLhs;

impl FaultZone for NeverHitLhs {
    fn find_target(&self, _p: &Point) -> bool {
        false
    }
}

#[test]
fn test_get_lower_bounds_by_index_2d() {
    let input_domain = vec![vec![-10, 10], vec![-10, 10]];

    let mut lhs = LhsArt::new();
    lhs.input_domain = input_domain;
    lhs.n_partitions = 4;

    let steps = lhs.compute_steps();

    let indices = [0, 1, 2, 3, 4, 5, 6, 7, 8];
    let expected = vec![
        vec![-10, -10],
        vec![-5, -10],
        vec![0, -10],
        vec![5, -10],
        vec![-10, -5],
        vec![-5, -5],
        vec![0, -5],
        vec![5, -5],
        vec![-10, 0],
    ];

    let actual = indices
        .iter()
        .map(|i| lhs.get_lower_bounds_by_index(*i, &steps))
        .collect::<Vec<_>>();

    assert_eq!(actual, expected);
}

#[test]
fn test_compute_steps_divides_axis_widths() {
    let mut lhs = LhsArt::with_partition_count(4);
    lhs.input_domain = vec![vec![-10, 10], vec![0, 8]];
    assert_eq!(lhs.compute_steps(), vec![5, 2]);
}

#[test]
fn test_populate_random_one_point_per_partition_cell() {
    // With one axis of width 2 and two partitions, a latin-hypercube batch
    // must place one point in [0, 1) and one in [1, 2): exactly {0, 1}.
    let mut lhs = LhsArt::with_partition_count(2);
    lhs.input_domain = vec![vec![0, 2]];
    for _ in 0..20 {
        let mut suite = Vec::new();
        lhs.populate_test_cases(&mut suite);
        assert_eq!(suite.len(), 2);
        let mut cells = vec![suite[0].coordinates[0], suite[1].coordinates[0]];
        cells.sort();
        assert_eq!(cells, vec![0, 1]);
    }
}

#[test]
fn test_populate_exhaustive_covers_cells_without_repeats() {
    // Two cells on one axis: every consecutive pair drawn from the
    // shuffled cell order must cover both cells, whatever the order.
    let mut lhs = LhsArt::with_partition_count(2);
    lhs.input_domain = vec![vec![0, 2]];
    lhs.exhaustive = true;
    let mut suite = Vec::new();
    lhs.populate_test_cases(&mut suite);
    assert_eq!(suite.len(), 1000);
    for pair in suite.chunks(2) {
        let mut cells = vec![pair[0].coordinates[0], pair[1].coordinates[0]];
        cells.sort();
        assert_eq!(cells, vec![0, 1]);
    }
}

#[test]
fn test_populate_exhaustive_large_grid_has_no_repeated_cells() {
    // A 40 x 40 grid (1600 cells, step 1) holds a whole 1000-point batch
    // from one shuffled pool: every generated point is a distinct cell.
    let mut lhs = LhsArt::with_partition_count(40);
    lhs.input_domain = vec![vec![0, 40], vec![0, 40]];
    lhs.exhaustive = true;
    let mut suite = Vec::new();
    lhs.populate_test_cases(&mut suite);
    assert_eq!(suite.len(), 1000);
    let mut cells: Vec<(i32, i32)> = suite
        .iter()
        .map(|p| (p.coordinates[0], p.coordinates[1]))
        .collect();
    cells.sort();
    cells.dedup();
    assert_eq!(cells.len(), 1000);
}

#[test]
fn test_populate_points_stay_in_domain() {
    let mut lhs = LhsArt::with_partition_count(5);
    lhs.input_domain = vec![vec![-10, 10], vec![0, 7]];
    let mut suite = Vec::new();
    lhs.populate_test_cases(&mut suite);
    assert_eq!(suite.len(), 5);
    for p in &suite {
        assert_eq!(p.n, 2);
        assert!(-10 <= p.coordinates[0] && p.coordinates[0] < 10);
        assert!(0 <= p.coordinates[1] && p.coordinates[1] < 7);
    }
}

#[test]
fn test_lhs_effectiveness_hit_and_exhaustion() {
    let mut lhs = LhsArt::with_partition_count(4);
    lhs.input_domain = vec![vec![-10, 10], vec![-10, 10]];
    assert_eq!(lhs.test_lhs_art_effectiveness(&AlwaysHitLhs, 30), 1);

    let mut lhs = LhsArt::with_partition_count(4);
    lhs.input_domain = vec![vec![-10, 10], vec![-10, 10]];
    assert_eq!(lhs.test_lhs_art_effectiveness(&NeverHitLhs, 30), 30);
}

#[test]
fn test_lhs_efficiency_runs() {
    let bound = vec![vec![-10, 10], vec![-10, 10]];
    let mut lhs = LhsArt::with_partition_count(4);
    lhs.test_lhs_art_efficiency(10, &bound);
    let mut lhs = LhsArt::with_partition_count(4);
    lhs.exhaustive = true;
    lhs.test_lhs_art_efficiency(2000, &bound);
}
