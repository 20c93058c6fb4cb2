use closest_pair::twod::divide_and_conquer_presortedy::strip_closest;
use closest_pair::twod::grid_const::Cell;
use closest_pair::twod::{
    squared_distance, BruteForce, ClosestPair, ClosestPairAlgorithm, Color, DivideAndConquer, Drawing,
    DivideAndConquerPresortedY, GridAlgorithm, GridAlgorithmConst, PairError, Point, SweepLine,
};

fn points(coords: &[(i32, i32)]) -> Vec<Point> {
    coords.iter().map(|&(x, y)| Point::new(x, y)).collect()
}

fn variants() -> Vec<Box<dyn Fn(&[Point]) -> Result<ClosestPair, PairError>>> {
    vec![
        Box::new(|p: &[Point]| BruteForce.execute(p)),
        Box::new(|p: &[Point]| DivideAndConquer.execute(p)),
        Box::new(|p: &[Point]| DivideAndConquerPresortedY.execute(p)),
        Box::new(|p: &[Point]| GridAlgorithm.execute(p)),
        Box::new(|p: &[Point]| GridAlgorithmConst.execute(p)),
        Box::new(|p: &[Point]| SweepLine.execute(p)),
    ]
}

fn check_pair(pts: &[Point], r: &ClosestPair) {
    assert!(r.point_a < pts.len());
    assert!(r.point_b < pts.len());
    assert_ne!(r.point_a, r.point_b);
    assert_eq!(r.squared_distance, squared_distance(&pts[r.point_a], &pts[r.point_b]));
}

fn same_pair(r: &ClosestPair, a: usize, b: usize) -> bool {
    (r.point_a == a && r.point_b == b) || (r.point_a == b && r.point_b == a)
}

struct Lcg(u64);

impl Lcg {
    fn next(&mut self) -> u64 {
        self.0 = self.0.wrapping_mul(6364136223846793005).wrapping_add(1442695040888963407);
        self.0 >> 33
    }

    fn coord(&mut self, range: i32) -> i32 {
        (self.next() % (2 * range as u64 + 1)) as i32 - range
    }
}

fn random_points(rng: &mut Lcg, n: usize, range: i32) -> Vec<Point> {
    (0..n).map(|_| Point::new(rng.coord(range), rng.coord(range))).collect()
}

#[test]
fn every_variant_agrees_with_brute_force_on_random_sets() {
    let mut rng = Lcg(7);
    for n in 2..=300 {
        for range in [5, 1000, 1_000_000] {
            let pts = random_points(&mut rng, n, range);
            let expected = BruteForce.execute(&pts).unwrap();
            for run in variants() {
                let r = run(&pts).unwrap();
                check_pair(&pts, &r);
                assert_eq!(r.squared_distance, expected.squared_distance, "n = {}", n);
            }
        }
    }
}

#[test]
fn every_variant_agrees_with_brute_force_on_a_large_set() {
    let mut rng = Lcg(11);
    let pts = random_points(&mut rng, 2000, 100_000);
    let expected = BruteForce.execute(&pts).unwrap();
    for run in variants() {
        assert_eq!(run(&pts).unwrap().squared_distance, expected.squared_distance);
    }
}

#[test]
fn repeated_runs_give_the_same_pair() {
    let pts = points(&[(0, 0), (7, 3), (20, 20), (-5, 9), (13, -4), (2, 30)]);
    for run in variants() {
        let first = run(&pts).unwrap();
        let second = run(&pts).unwrap();
        assert_eq!(first.squared_distance, second.squared_distance);
        assert!(same_pair(&second, first.point_a, first.point_b));
    }
}

#[test]
fn two_points_give_that_pair() {
    let pts = points(&[(3, 4), (-1, 1)]);
    for run in variants() {
        let r = run(&pts).unwrap();
        assert!(same_pair(&r, 0, 1));
        assert_eq!(r.squared_distance, 25);
    }
}

#[test]
fn three_points_give_the_best_of_three() {
    let pts = points(&[(0, 0), (10, 0), (4, 3)]);
    for run in variants() {
        let r = run(&pts).unwrap();
        assert!(same_pair(&r, 0, 2));
        assert_eq!(r.squared_distance, 25);
    }
}

#[test]
fn a_duplicate_point_is_found() {
    let pts = points(&[(5, 5), (100, 100), (-40, 7), (100, 100), (60, -60)]);
    for run in variants() {
        let r = run(&pts).unwrap();
        assert!(same_pair(&r, 1, 3));
        assert_eq!(r.squared_distance, 0);
    }
}

#[test]
fn collinear_points() {
    let pts = points(&[(0, 0), (10, 10), (30, 30), (31, 31), (60, 60), (-20, -20)]);
    for run in variants() {
        let r = run(&pts).unwrap();
        assert!(same_pair(&r, 2, 3));
        assert_eq!(r.squared_distance, 2);
    }
    let vertical = points(&[(5, 0), (5, 9), (5, 3), (5, 20), (5, -7)]);
    for run in variants() {
        assert_eq!(run(&vertical).unwrap().squared_distance, 9);
    }
}

#[test]
fn all_points_identical() {
    let pts = points(&[(42, -42); 7]);
    for run in variants() {
        let r = run(&pts).unwrap();
        check_pair(&pts, &r);
        assert_eq!(r.squared_distance, 0);
    }
}

#[test]
fn points_on_cell_boundaries() {
    let mut coords = vec![];
    for x in 0..6 {
        for y in 0..6 {
            coords.push((x * 10, y * 10));
        }
    }
    coords.push((25, 20));
    let pts = points(&coords);
    for run in variants() {
        let r = run(&pts).unwrap();
        check_pair(&pts, &r);
        assert_eq!(r.squared_distance, 25);
    }
}

#[test]
fn the_example_set() {
    let pts = points(&[(0, 0), (10, 10), (1, 1), (50, 50)]);
    for run in variants() {
        let r = run(&pts).unwrap();
        assert!(same_pair(&r, 0, 2));
        assert_eq!(r.squared_distance, 2);
    }
}

#[test]
fn fewer_than_two_points_is_an_error() {
    let empty: Vec<Point> = vec![];
    let one = points(&[(1, 2)]);
    for run in variants() {
        assert_eq!(run(&empty), Err(PairError::InvalidInput));
        assert_eq!(run(&one), Err(PairError::InvalidInput));
    }
}

#[test]
fn extreme_coordinates() {
    let pts = points(&[(i32::MIN, i32::MIN), (i32::MAX, i32::MAX), (i32::MAX, i32::MIN)]);
    let side = (i32::MAX as i128 - i32::MIN as i128) as u128;
    for run in variants() {
        let r = run(&pts).unwrap();
        check_pair(&pts, &r);
        assert_eq!(r.squared_distance, side * side);
    }
    let far = points(&[(i32::MIN, i32::MIN), (i32::MAX, i32::MAX)]);
    for run in variants() {
        assert_eq!(run(&far).unwrap().squared_distance, 2 * side * side);
    }
}

#[test]
fn brute_force_reports_the_first_closest_pair() {
    let pts = points(&[(0, 0), (3, 0), (10, 0), (13, 0)]);
    let r = BruteForce.execute(&pts).unwrap();
    assert_eq!((r.point_a, r.point_b), (0, 1));
    assert_eq!(r.squared_distance, 9);
}

#[test]
fn five_points_in_one_cell_are_all_kept() {
    let mut cell = Cell::new();
    for i in [4, 8, 15, 16, 23] {
        cell.push(i);
    }
    let mut held = vec![];
    for u in 0..cell.in_place_len() {
        held.push(cell.get(u));
    }
    for w in 0..cell.extra_len() {
        held.push(cell.get_extra(w));
    }
    assert_eq!(held, vec![4, 8, 15, 16, 23]);
}

#[test]
fn grid_const_with_five_points_in_the_final_cell() {
    // The first pair is far apart, so the grid starts with large cells; the
    // cluster that follows holds the closest pair.
    let pts = points(&[(0, 0), (1000, 0), (400, 400), (402, 400), (400, 402), (402, 402), (401, 401), (900, 900)]);
    let r = GridAlgorithmConst.execute(&pts).unwrap();
    check_pair(&pts, &r);
    assert_eq!(r.squared_distance, 2);
    assert_eq!(r.squared_distance, BruteForce.execute(&pts).unwrap().squared_distance);
}

#[test]
fn grid_const_on_a_dense_lattice() {
    let mut coords = vec![(0, 0), (5000, 5000)];
    for x in 0..20 {
        for y in 0..20 {
            coords.push((100 + 3 * x, 100 + 3 * y));
        }
    }
    let pts = points(&coords);
    let r = GridAlgorithmConst.execute(&pts).unwrap();
    check_pair(&pts, &r);
    assert_eq!(r.squared_distance, 9);
}

#[test]
fn names_and_limits() {
    assert_eq!(BruteForce.name(), "brute force");
    assert_eq!(BruteForce.limit(), 10_000);
    assert_eq!(DivideAndConquer.name(), "divide and conquer");
    assert_eq!(DivideAndConquer.limit(), 10_000_000);
    assert_eq!(DivideAndConquerPresortedY.name(), "divide and conquer presorted y");
    assert_eq!(DivideAndConquerPresortedY.limit(), usize::MAX);
    assert_eq!(GridAlgorithm.name(), "grid");
    assert_eq!(GridAlgorithm.limit(), 10_000_000);
    assert_eq!(GridAlgorithmConst.name(), "grid const");
    assert_eq!(GridAlgorithmConst.limit(), usize::MAX);
    assert_eq!(SweepLine.name(), "sweep line");
    assert_eq!(SweepLine.limit(), usize::MAX);
}

#[test]
fn squared_distance_is_exact() {
    assert_eq!(squared_distance(&Point::new(1, 2), &Point::new(4, 6)), 25);
    assert_eq!(squared_distance(&Point::new(-3, 0), &Point::new(3, 0)), 36);
}

#[test]
fn brute_force_frames_one_per_pair() {
    let pts = points(&[(0, 0), (5, 5), (1, 0), (9, 2), (3, 7)]);
    let frames = BruteForce.drawings(&pts);
    assert_eq!(frames.len(), 10);
    let first = &frames[0];
    assert_eq!(first[0], Drawing::Point(pts[0], Color::Red));
    assert_eq!(first[first.len() - 2], Drawing::Line(pts[0], pts[1], Color::Green));
    assert_eq!(first[first.len() - 1], Drawing::Line(pts[0], pts[1], Color::Red));
    let last = &frames[9];
    assert_eq!(last[last.len() - 2], Drawing::Line(pts[3], pts[4], Color::Green));
    assert_eq!(last[last.len() - 1], Drawing::Line(pts[0], pts[2], Color::Red));
}

#[test]
fn divide_and_conquer_frames_one_per_split() {
    let pts = points(&[(0, 0), (5, 5), (1, 0), (9, 2), (3, 7), (8, 8), (2, 4), (6, 1)]);
    let frames = DivideAndConquer.drawings(&pts);
    assert_eq!(frames.len(), 3);
    assert_eq!(frames[2].len(), pts.len() + 5);
}

#[test]
fn sweep_and_grid_frames_one_per_point() {
    let pts = points(&[(0, 0), (50, 50), (10, 90), (93, 2), (30, 77), (64, 64)]);
    let sweep = SweepLine.drawings(&pts);
    assert_eq!(sweep.len(), pts.len() - 2);
    for frame in &sweep {
        assert_eq!(frame.len(), pts.len() + 5);
    }
    let grid = GridAlgorithm.drawings(&pts);
    assert_eq!(grid.len(), pts.len() - 2);
    for (k, frame) in grid.iter().enumerate() {
        assert_eq!(frame.last(), Some(&Drawing::Point(pts[k + 2], Color::Red)));
    }
}

#[test]
fn no_frames_for_fewer_than_two_points_or_without_a_trace() {
    let one = points(&[(1, 1)]);
    assert!(BruteForce.drawings(&one).is_empty());
    assert!(DivideAndConquer.drawings(&one).is_empty());
    assert!(SweepLine.drawings(&one).is_empty());
    assert!(GridAlgorithm.drawings(&one).is_empty());
    let pts = points(&[(0, 0), (5, 5), (1, 0)]);
    assert!(GridAlgorithmConst.drawings(&pts).is_empty());
    assert!(DivideAndConquerPresortedY.drawings(&pts).is_empty());
}

#[test]
fn brute_force_reports_the_example_pair_in_scan_order() {
    let pts = points(&[(0, 0), (10, 10), (1, 1), (50, 50)]);
    let r = BruteForce.execute(&pts).unwrap();
    assert_eq!((r.point_a, r.point_b, r.squared_distance), (0, 2, 2));
}

#[test]
fn strip_scan_keeps_the_starting_pair_on_ties() {
    let pts = points(&[(0, 0), (3, 4), (10, 0), (13, 4)]);
    let best = ClosestPair::euclidean(&pts, 0, 1);
    let strip = vec![2usize, 3];
    let r = strip_closest(&pts, &strip, best);
    assert_eq!(r, best);
    let closer = points(&[(0, 0), (3, 4), (10, 0), (11, 1)]);
    let r = strip_closest(&closer, &strip, ClosestPair::euclidean(&closer, 0, 1));
    assert_eq!((r.point_a, r.point_b, r.squared_distance), (2, 3, 2));
}

#[test]
fn grid_frames_continue_after_a_duplicate() {
    let pts = points(&[(0, 0), (0, 0), (5, 5), (9, 1), (2, 8)]);
    let frames = GridAlgorithm.drawings(&pts);
    assert_eq!(frames.len(), 3);
    for (f, frame) in frames.iter().enumerate() {
        let i = f + 2;
        assert_eq!(frame.len(), 8 + i + 1);
        for k in 0..i {
            assert_eq!(frame[8 + k], Drawing::Point(pts[k], Color::White));
        }
    }
    assert_eq!(GridAlgorithm.execute(&pts).unwrap().squared_distance, 0);
}

#[test]
fn sweep_frames_show_every_point_in_white() {
    let pts = points(&[(0, 0), (50, 50), (10, 90), (93, 2)]);
    for frame in SweepLine.drawings(&pts) {
        for k in 0..pts.len() {
            assert_eq!(frame[5 + k], Drawing::Point(pts[k], Color::White));
        }
    }
}

#[test]
fn create_grid_holds_each_point_once_in_order() {
    let pts = points(&[(0, 0), (3, 3), (25, 1), (4, 2), (26, 9), (-7, -7), (1, 1)]);
    let grid = closest_pair::twod::grid::create_grid(&pts, pts.len(), 10);
    let mut all = vec![];
    for (slot, cell) in &grid {
        assert!(!cell.is_empty());
        assert!(cell.windows(2).all(|w| w[0] < w[1]));
        for &j in cell {
            assert_eq!(*slot, closest_pair::twod::grid::slot_of_point(&pts[j], 10));
        }
        all.extend(cell.iter().copied());
    }
    all.sort();
    assert_eq!(all, (0..pts.len()).collect::<Vec<_>>());
}
