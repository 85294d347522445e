//! Room-set generation and whole areas.

use dungeon::{Area, ConnectionStrategy, RandomSource, RoomGenerator, Room, Tunneler, Vector2Int};
use dungeon::generator::{chamber_generator, grow_generator};

fn overlaps(a: &Room, b: &Room, border: i32) -> bool {
    !(b.a.x > a.b.x + border
        || b.b.x < a.a.x - border
        || b.a.y > a.b.y + border
        || b.b.y < a.a.y - border)
}

#[test]
fn chamber_emits_one_room_at_origin() {
    let mut rng = RandomSource::from_seed(1);
    let (rooms, conns) = chamber_generator(2, 9, &mut rng);
    assert_eq!(rooms.len(), 1);
    assert_eq!(conns.len(), 0);
    assert_eq!(rooms[0].a, Vector2Int::new(0, 0));
    assert!(1 <= rooms[0].b.x && rooms[0].b.x <= 8);
    assert!(1 <= rooms[0].b.y && rooms[0].b.y <= 8);
}

#[test]
fn chamber_with_pinned_size_is_deterministic() {
    // min_size == max_size leaves the sampler no choice: a 5 by 5 room
    for seed in 0..10u64 {
        let mut rng = RandomSource::from_seed(seed);
        let (rooms, _) = chamber_generator(5, 5, &mut rng);
        assert_eq!(rooms[0], Room::new(Vector2Int::new(0, 0), Vector2Int::new(4, 4)));
        assert_eq!(rooms[0].get_tiles().len(), 25);
    }
}

#[test]
fn grow_yields_count_rooms_and_tree_edges() {
    let mut rng = RandomSource::from_seed(8);
    let (rooms, conns) = grow_generator(6, 2, 4, None, &mut rng).expect("placement");
    assert_eq!(rooms.len(), 6);
    assert_eq!(conns.len(), 5);
    // edge k attaches room k + 1 to an earlier room: a connected tree
    for (k, (from, to)) in conns.iter().enumerate() {
        assert_eq!(*to, k + 1);
        assert!(*from <= k);
    }
    // every room is reachable from room 0 by walking edges backwards
    let mut reachable = vec![false; rooms.len()];
    reachable[0] = true;
    for (from, to) in &conns {
        assert!(reachable[*from]);
        reachable[*to] = true;
    }
    assert!(reachable.iter().all(|r| *r));
}

#[test]
fn grow_rooms_do_not_overlap() {
    let mut rng = RandomSource::from_seed(21);
    let (rooms, _) = grow_generator(8, 2, 5, None, &mut rng).expect("placement");
    for i in 0..rooms.len() {
        for j in 0..rooms.len() {
            if i != j {
                assert!(!overlaps(&rooms[i], &rooms[j], 0));
            }
        }
    }
}

#[test]
fn grow_separated_rooms_keep_their_gap() {
    let mut rng = RandomSource::from_seed(22);
    let (rooms, conns) = grow_generator(7, 2, 5, Some(2), &mut rng).expect("placement");
    assert_eq!(rooms.len(), 7);
    assert_eq!(conns.len(), 6);
    for i in 0..rooms.len() {
        for j in 0..rooms.len() {
            if i != j {
                assert!(!overlaps(&rooms[i], &rooms[j], 2));
            }
        }
    }
}

#[test]
fn grow_count_zero_or_one_yields_single_seed_room() {
    let mut rng = RandomSource::from_seed(6);
    let (rooms0, conns0) = grow_generator(0, 3, 6, None, &mut rng).expect("seed only");
    assert_eq!(rooms0.len(), 1);
    assert_eq!(conns0.len(), 0);
    assert_eq!(rooms0[0].a, Vector2Int::new(0, 0));
    let (rooms1, conns1) = grow_generator(1, 3, 6, None, &mut rng).expect("seed only");
    assert_eq!(rooms1.len(), 1);
    assert_eq!(conns1.len(), 0);
}

#[test]
fn generate_dispatches_each_variant() {
    let mut rng = RandomSource::from_seed(9);
    let g = RoomGenerator::Chamber { min_size: 3, max_size: 3 };
    let (rooms, conns) = g.generate(&mut rng).expect("chamber");
    assert_eq!((rooms.len(), conns.len()), (1, 0));

    let g = RoomGenerator::Grow { count: 4, min_size: 2, max_size: 4 };
    let (rooms, conns) = g.generate(&mut rng).expect("grow");
    assert_eq!((rooms.len(), conns.len()), (4, 3));

    let g = RoomGenerator::GrowSeparated { count: 4, min_size: 2, max_size: 4 };
    let (rooms, conns) = g.generate(&mut rng).expect("grow separated");
    assert_eq!((rooms.len(), conns.len()), (4, 3));
    for i in 0..rooms.len() {
        for j in 0..rooms.len() {
            if i != j {
                assert!(!overlaps(&rooms[i], &rooms[j], 2));
            }
        }
    }
}

#[test]
fn area_generate_rooms_populates_layout() {
    let mut rng = RandomSource::from_seed(12);
    let mut area = Area::new(
        RoomGenerator::Grow { count: 4, min_size: 3, max_size: 6 },
        Tunneler::Weighted,
        ConnectionStrategy::Basic,
    );
    assert!(area.rooms.is_empty() && area.paths.is_empty());
    assert!(area.generate_rooms(&mut rng));
    assert_eq!(area.rooms.len(), 4);
    // one corridor per mandatory edge
    assert_eq!(area.paths.len(), 3);
}

#[test]
fn area_bounds_and_size() {
    let mut area = Area::new(
        RoomGenerator::Chamber { min_size: 2, max_size: 2 },
        Tunneler::LShape,
        ConnectionStrategy::Basic,
    );
    area.rooms = vec![
        Room::new(Vector2Int::new(-2, 1), Vector2Int::new(3, 4)),
        Room::new(Vector2Int::new(0, -5), Vector2Int::new(7, 0)),
    ];
    let (lo, hi) = area.get_bounds();
    assert_eq!(lo, Vector2Int::new(-2, -5));
    assert_eq!(hi, Vector2Int::new(7, 4));
    assert_eq!(area.get_size(), Vector2Int::new(9, 9));
}

#[test]
fn area_shift_moves_bounds_to_base() {
    // translation-consistency: after shift(bx, by) the minimum bound is
    // exactly (bx, by)
    let mut rng = RandomSource::from_seed(30);
    let mut area = Area::new(
        RoomGenerator::Grow { count: 3, min_size: 2, max_size: 4 },
        Tunneler::LShape,
        ConnectionStrategy::Basic,
    );
    assert!(area.generate_rooms(&mut rng));
    area.shift(17, -9);
    let (lo, _) = area.get_bounds();
    assert_eq!(lo, Vector2Int::new(17, -9));
}

#[test]
fn area_shift_is_idempotent_and_composable() {
    let mut rng = RandomSource::from_seed(31);
    let mut one = Area::new(
        RoomGenerator::Grow { count: 3, min_size: 2, max_size: 4 },
        Tunneler::LShape,
        ConnectionStrategy::Basic,
    );
    assert!(one.generate_rooms(&mut rng));
    let mut two = Area::new(
        RoomGenerator::Grow { count: 3, min_size: 2, max_size: 4 },
        Tunneler::LShape,
        ConnectionStrategy::Basic,
    );
    two.rooms = one.rooms.clone();
    two.paths = one.paths.clone();

    // two successive shifts equal one shift to the final base
    one.shift(5, 5);
    one.shift(-3, 8);
    two.shift(-3, 8);
    assert_eq!(one.rooms, two.rooms);
    assert_eq!(one.paths, two.paths);

    // re-shifting to the same base changes nothing
    let rooms_before = one.rooms.clone();
    let paths_before = one.paths.clone();
    one.shift(-3, 8);
    assert_eq!(one.rooms, rooms_before);
    assert_eq!(one.paths, paths_before);
}

#[test]
fn area_join_returns_a_corridor() {
    let mut rng = RandomSource::from_seed(33);
    let mut left = Area::new(
        RoomGenerator::Chamber { min_size: 3, max_size: 3 },
        Tunneler::Weighted,
        ConnectionStrategy::Basic,
    );
    assert!(left.generate_rooms(&mut rng));
    let mut right = Area::new(
        RoomGenerator::Chamber { min_size: 3, max_size: 3 },
        Tunneler::Weighted,
        ConnectionStrategy::Basic,
    );
    assert!(right.generate_rooms(&mut rng));
    right.shift(20, 0);
    let path = left.join(&right, &mut rng);
    // rooms far apart need a real corridor
    assert!(!path.is_empty());
}
