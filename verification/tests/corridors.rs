//! Corridor tracing and connection strategies.

use dungeon::{ConnectionStrategy, RandomSource, Room, Tunneler, Vector2Int};
use dungeon::tunnels::{l_shape_connector, weighted_connector};

fn manhattan(a: Vector2Int, b: Vector2Int) -> i32 {
    (a.x - b.x).abs() + (a.y - b.y).abs()
}

#[test]
fn l_shape_length_is_manhattan_plus_one() {
    // |dx| + |dy| + 1 tiles, for every quadrant combination
    let cases = [
        (Vector2Int::new(0, 0), Vector2Int::new(5, 3)),
        (Vector2Int::new(2, 7), Vector2Int::new(-4, 1)),
        (Vector2Int::new(-3, -3), Vector2Int::new(-3, 9)),
        (Vector2Int::new(4, 0), Vector2Int::new(-2, 0)),
    ];
    for (a, b) in cases {
        let path = l_shape_connector(a, b);
        assert_eq!(path.len() as i32, manhattan(a, b) + 1);
    }
}

#[test]
fn l_shape_degenerates_to_one_tile() {
    let a = Vector2Int::new(3, 3);
    let path = l_shape_connector(a, a);
    assert_eq!(path.len(), 1);
    assert_eq!(path[0], a);
}

#[test]
fn l_shape_exact_run() {
    // wide case: dx > dy, so the horizontal leg sits at a's row and the
    // vertical leg at b's column
    let a = Vector2Int::new(0, 0);
    let b = Vector2Int::new(3, 1);
    let path = l_shape_connector(a, b);
    let expected = vec![
        Vector2Int::new(3, 0),
        Vector2Int::new(3, 1),
        Vector2Int::new(0, 0),
        Vector2Int::new(1, 0),
        Vector2Int::new(2, 0),
    ];
    assert_eq!(path, expected);
}

#[test]
fn l_shape_covers_both_endpoints() {
    let a = Vector2Int::new(-2, 5);
    let b = Vector2Int::new(4, -1);
    let path = l_shape_connector(a, b);
    assert!(path.contains(&a));
    assert!(path.contains(&b));
}

#[test]
fn weighted_length_is_manhattan() {
    let mut rng = RandomSource::from_seed(5);
    let cases = [
        (Vector2Int::new(0, 0), Vector2Int::new(6, 2)),
        (Vector2Int::new(3, -4), Vector2Int::new(-1, -4)),
        (Vector2Int::new(2, 2), Vector2Int::new(2, 2)),
        (Vector2Int::new(-5, 1), Vector2Int::new(5, -7)),
    ];
    for (a, b) in cases {
        let path = weighted_connector(a, b, &mut rng);
        assert_eq!(path.len() as i32, manhattan(a, b));
    }
}

#[test]
fn weighted_walk_steps_toward_target() {
    let mut rng = RandomSource::from_seed(17);
    let a = Vector2Int::new(0, 0);
    let b = Vector2Int::new(7, -5);
    let path = weighted_connector(a, b, &mut rng);
    assert_eq!(path[0], a);
    for w in path.windows(2) {
        assert_eq!(manhattan(w[0], w[1]), 1);
    }
    // the walk stops one step short of the target
    let last = path[path.len() - 1];
    assert_eq!(manhattan(last, b), 1);
    // and never leaves the endpoints' bounding rectangle
    for p in &path {
        assert!(p.x >= 0 && p.x <= 7 && p.y >= -5 && p.y <= 0);
    }
}

#[test]
fn connect_dispatches_by_variant() {
    let mut rng = RandomSource::from_seed(23);
    let a = Vector2Int::new(1, 1);
    let b = Vector2Int::new(4, 9);
    let l = Tunneler::LShape.connect(a, b, &mut rng);
    assert_eq!(l.len() as i32, manhattan(a, b) + 1);
    let w = Tunneler::Weighted.connect(a, b, &mut rng);
    assert_eq!(w.len() as i32, manhattan(a, b));
}

fn two_separated_rooms() -> Vec<Room> {
    vec![
        Room::new(Vector2Int::new(0, 0), Vector2Int::new(3, 3)),
        Room::new(Vector2Int::new(10, 0), Vector2Int::new(13, 3)),
        Room::new(Vector2Int::new(0, 10), Vector2Int::new(3, 13)),
    ]
}

#[test]
fn basic_draws_one_path_per_mandatory_edge() {
    let mut rng = RandomSource::from_seed(2);
    let rooms = two_separated_rooms();
    let conns: Vec<(usize, usize)> = vec![(0, 1), (0, 2)];
    let paths = ConnectionStrategy::Basic.plan(&rooms, &conns, &Tunneler::Weighted, &mut rng);
    assert_eq!(paths.len(), conns.len());
    for path in &paths {
        assert!(!path.is_empty());
    }
}

#[test]
fn secondary_zero_reduces_to_basic() {
    // no secondary corridor between rooms that never touch can have at most
    // zero tiles, so only the mandatory corridors remain
    let mut rng = RandomSource::from_seed(3);
    let rooms = two_separated_rooms();
    let conns: Vec<(usize, usize)> = vec![(0, 1), (0, 2)];
    for _ in 0..20 {
        let paths = ConnectionStrategy::Secondary(0).plan(&rooms, &conns, &Tunneler::Weighted, &mut rng);
        assert_eq!(paths.len(), conns.len());
    }
}

#[test]
fn secondary_respects_length_cap() {
    let mut rng = RandomSource::from_seed(4);
    let rooms = two_separated_rooms();
    let conns: Vec<(usize, usize)> = vec![(0, 1), (0, 2)];
    for cap in [1u32, 5, 30] {
        let paths = ConnectionStrategy::Secondary(cap).plan(&rooms, &conns, &Tunneler::LShape, &mut rng);
        assert!(paths.len() >= conns.len());
        for extra in &paths[conns.len()..] {
            assert!(extra.len() <= cap as usize);
        }
    }
}
