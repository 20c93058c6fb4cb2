use closest_pair::algorithms::{closest_pair_index, distance, divide_and_conquer, Vec2};
use closest_pair::bench::print_thousands;
use closest_pair::nd;
use closest_pair::nd::ClosestPairAlgorithm as SpaceAlgorithm;
use closest_pair::twod::grid::CellKey as PlaneCellKey;
use closest_pair::twod::{ClosestPairAlgorithm, PairError, Point, SweepLine};

fn v(x: i32, y: i32) -> Vec2<i32> {
    Vec2 { x, y }
}

#[test]
fn index_pair_of_the_example_set() {
    let pts = vec![v(0, 0), v(10, 10), v(1, 1), v(50, 50)];
    let r = closest_pair_index(&pts).unwrap();
    assert_eq!((r.pair.x, r.pair.y), (0, 2));
    assert_eq!(r.squared_distance, 2);
    let d = divide_and_conquer(&pts).unwrap();
    assert_eq!(d.squared_distance, 2);
    assert!((d.pair.x, d.pair.y) == (0, 2) || (d.pair.x, d.pair.y) == (2, 0));
}

#[test]
fn index_pair_needs_two_points() {
    assert!(closest_pair_index(&[]).is_none());
    assert!(closest_pair_index(&[v(1, 1)]).is_none());
    assert!(divide_and_conquer(&[]).is_none());
    assert!(divide_and_conquer(&[v(1, 1)]).is_none());
}

#[test]
fn index_pair_on_larger_sets() {
    let pts: Vec<Vec2<i32>> = (0..50).map(|i| v((i * 37) % 101, (i * 53) % 97)).collect();
    let a = closest_pair_index(&pts).unwrap();
    let b = divide_and_conquer(&pts).unwrap();
    assert_eq!(a.squared_distance, b.squared_distance);
    assert_eq!(distance(&pts[a.pair.x], &pts[a.pair.y]), a.squared_distance);
    assert_eq!(distance(&v(0, 0), &v(3, 4)), 25);
}

#[test]
fn thousands_separators() {
    assert_eq!(print_thousands(0), "0");
    assert_eq!(print_thousands(7), "7");
    assert_eq!(print_thousands(999), "999");
    assert_eq!(print_thousands(1000), "1_000");
    assert_eq!(print_thousands(1_048_576), "1_048_576");
    assert_eq!(print_thousands(1_000_005), "1_000_005");
    assert_eq!(print_thousands(u64::MAX), "18_446_744_073_709_551_615");
}

#[test]
fn three_dimensional_brute_force() {
    let pts = vec![
        nd::Point::new([0, 0, 0]),
        nd::Point::new([5, 5, 5]),
        nd::Point::new([1, 2, 2]),
        nd::Point::new([9, 0, -3]),
    ];
    let r = nd::BruteForce.execute(&pts).unwrap();
    assert_eq!((r.point_a, r.point_b), (0, 2));
    assert_eq!(r.squared_distance, 9);
    assert_eq!(nd::squared_distance(&pts[1], &pts[3]), 16 + 25 + 64);
}

#[test]
fn n_dimensional_errors_and_agreement_with_the_plane() {
    let none: Vec<nd::Point<4>> = vec![];
    assert_eq!(nd::BruteForce.execute(&none), Err(PairError::InvalidInput));
    let coords = [(3, 9), (-4, 1), (8, 8), (0, 5), (7, 10)];
    let flat: Vec<Point> = coords.iter().map(|&(x, y)| Point::new(x, y)).collect();
    let lifted: Vec<nd::Point<2>> = coords.iter().map(|&(x, y)| nd::Point::new([x, y])).collect();
    assert_eq!(
        nd::BruteForce.execute(&lifted).unwrap().squared_distance,
        SweepLine.execute(&flat).unwrap().squared_distance
    );
}

#[test]
fn n_dimensional_grid_agrees_with_brute_force() {
    let mut state: u64 = 3;
    let mut next = || {
        state = state.wrapping_mul(6364136223846793005).wrapping_add(1442695040888963407);
        ((state >> 33) % 2001) as i32 - 1000
    };
    for n in 2..120 {
        let pts: Vec<nd::Point<3>> = (0..n).map(|_| nd::Point::new([next(), next(), next()])).collect();
        let expected = nd::BruteForce.execute(&pts).unwrap();
        let r = nd::GridAlgorithmConst.execute(&pts).unwrap();
        assert_ne!(r.point_a, r.point_b);
        assert_eq!(r.squared_distance, nd::squared_distance(&pts[r.point_a], &pts[r.point_b]));
        assert_eq!(r.squared_distance, expected.squared_distance);
    }
}

#[test]
fn n_dimensional_grid_edge_cases() {
    let none: Vec<nd::Point<3>> = vec![];
    assert_eq!(nd::GridAlgorithmConst.execute(&none), Err(PairError::InvalidInput));
    let same = vec![nd::Point::new([4, 4, 4, 4]); 6];
    assert_eq!(nd::GridAlgorithmConst.execute(&same).unwrap().squared_distance, 0);
    let far = vec![
        nd::Point::new([i32::MIN, i32::MIN, i32::MIN, i32::MIN, i32::MIN]),
        nd::Point::new([i32::MAX, i32::MAX, i32::MAX, i32::MAX, i32::MAX]),
        nd::Point::new([0, 0, 0, 0, 1]),
    ];
    let expected = nd::BruteForce.execute(&far).unwrap().squared_distance;
    assert_eq!(nd::GridAlgorithmConst.execute(&far).unwrap().squared_distance, expected);
    let line: Vec<nd::Point<2>> = (0..30).map(|i| nd::Point::new([i * 7, 0])).collect();
    assert_eq!(nd::GridAlgorithmConst.execute(&line).unwrap().squared_distance, 49);
}

#[test]
fn n_dimensional_cells_have_all_neighbours() {
    let key = nd::grid_const::CellKey::new(&nd::Point::new([0, 0, 0]), 10);
    let keys = key.nearbys();
    assert_eq!(keys.len(), 27);
    for dx in -1..=1i64 {
        for dy in -1..=1i64 {
            for dz in -1..=1i64 {
                let want = [key.coordinates[0] + dx, key.coordinates[1] + dy, key.coordinates[2] + dz];
                assert!(keys.iter().any(|k| k.coordinates == want));
            }
        }
    }
}

#[test]
fn plane_cells_have_all_neighbours() {
    let key = PlaneCellKey::new(&Point::new(25, -25), 10);
    assert_eq!(key.x, (25i64 + 0x8000_0000) / 10);
    assert_eq!(key.y, (-25i64 + 0x8000_0000) / 10);
    let keys = key.nearbys();
    let mut t = 0;
    for dx in -1..=1i64 {
        for dy in -1..=1i64 {
            assert_eq!((keys[t].x, keys[t].y), (key.x + dx, key.y + dy));
            t += 1;
        }
    }
}

#[test]
fn three_dimensional_example_in_scan_order() {
    let pts = vec![nd::Point::new([0, 0, 0]), nd::Point::new([10, 20, 20]), nd::Point::new([0, 0, 5])];
    let r = nd::BruteForce.execute(&pts).unwrap();
    assert_eq!((r.point_a, r.point_b, r.squared_distance), (0, 2, 25));
}

#[test]
fn n_dimensional_neighbours_are_distinct() {
    let key = nd::grid_const::CellKey::new(&nd::Point::new([7, -7, 70, 700]), 10);
    let keys = key.nearbys();
    assert_eq!(keys.len(), 81);
    for a in 0..keys.len() {
        for b in (a + 1)..keys.len() {
            assert_ne!(keys[a].coordinates, keys[b].coordinates);
        }
        for d in 0..4 {
            assert!((keys[a].coordinates[d] - key.coordinates[d]).abs() <= 1);
        }
    }
}
