//! Vector and room geometry.

use dungeon::{Room, RandomSource, Vector2Int};

#[test]
fn vector_arithmetic() {
    let a = Vector2Int::new(3, -4);
    let b = Vector2Int::new(-1, 7);
    let s = a.add(b);
    assert_eq!(s, Vector2Int::new(2, 3));
    let d = a.sub(b);
    assert_eq!(d, Vector2Int::new(4, -11));
    assert_eq!(a.min(b), Vector2Int::new(-1, -4));
    assert_eq!(a.max(b), Vector2Int::new(3, 7));
    assert_eq!(a.manhattan(b), 4 + 11);
    assert_eq!(a.manhattan(a), 0);
}

#[test]
fn vector_clamped_signs() {
    assert_eq!(Vector2Int::new(5, -3).clamped(), Vector2Int::new(1, -1));
    assert_eq!(Vector2Int::new(0, 9).clamped(), Vector2Int::new(0, 1));
    assert_eq!(Vector2Int::new(-2, 0).clamped(), Vector2Int::new(-1, 0));
    assert_eq!(Vector2Int::new(0, 0).clamped(), Vector2Int::new(0, 0));
}

#[test]
fn room_new_normalizes_swapped_corners() {
    // normalization holds for any two input corners, including swapped ones
    let r = Room::new(Vector2Int::new(7, -2), Vector2Int::new(3, 5));
    assert_eq!(r.a, Vector2Int::new(3, -2));
    assert_eq!(r.b, Vector2Int::new(7, 5));
    assert!(r.a.x <= r.b.x && r.a.y <= r.b.y);

    let swapped = Room::new(Vector2Int::new(3, 5), Vector2Int::new(7, -2));
    assert_eq!(swapped, r);

    let degenerate = Room::new(Vector2Int::new(1, 1), Vector2Int::new(1, 1));
    assert_eq!(degenerate.a, degenerate.b);
}

#[test]
fn room_corners_and_centre() {
    let r = Room::new(Vector2Int::new(0, 0), Vector2Int::new(4, 2));
    let c = r.corners();
    assert_eq!(c[0], Vector2Int::new(0, 0));
    assert_eq!(c[1], Vector2Int::new(4, 0));
    assert_eq!(c[2], Vector2Int::new(4, 2));
    assert_eq!(c[3], Vector2Int::new(0, 2));
    assert_eq!(r.centre(), Vector2Int::new(2, 1));

    let odd = Room::new(Vector2Int::new(-3, -3), Vector2Int::new(0, 0));
    let m = odd.centre();
    assert!(odd.a.x <= m.x && m.x <= odd.b.x);
    assert!(odd.a.y <= m.y && m.y <= odd.b.y);
}

#[test]
fn room_intersects_with_and_without_border() {
    let a = Room::new(Vector2Int::new(0, 0), Vector2Int::new(3, 3));
    let b = Room::new(Vector2Int::new(4, 0), Vector2Int::new(6, 3));
    // abutting spans do not overlap at border 0 but do with a gap of one
    assert!(!a.intersects(&b, None));
    assert!(a.intersects(&b, Some(1)));
    let c = Room::new(Vector2Int::new(2, 2), Vector2Int::new(9, 9));
    assert!(a.intersects(&c, None));
    let far = Room::new(Vector2Int::new(10, 10), Vector2Int::new(12, 12));
    assert!(!a.intersects(&far, Some(2)));
    assert!(a.intersects(&far, Some(7)));
}

#[test]
fn room_get_tiles_covers_exactly_the_rectangle() {
    let r = Room::new(Vector2Int::new(-1, 2), Vector2Int::new(1, 3));
    let tiles = r.get_tiles();
    assert_eq!(tiles.len(), 3 * 2);
    for x in -1..=1 {
        for y in 2..=3 {
            assert!(tiles.contains(&Vector2Int::new(x, y)));
        }
    }
    // no duplicates
    for i in 0..tiles.len() {
        for j in (i + 1)..tiles.len() {
            assert_ne!(tiles[i], tiles[j]);
        }
    }
}

#[test]
fn room_random_point_stays_inside() {
    let mut rng = RandomSource::from_seed(11);
    let r = Room::new(Vector2Int::new(-5, 0), Vector2Int::new(5, 4));
    for _ in 0..100 {
        let p = r.random_point(&mut rng);
        assert!(r.a.x <= p.x && p.x <= r.b.x);
        assert!(r.a.y <= p.y && p.y <= r.b.y);
    }
}
