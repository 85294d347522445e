//! Whole-dungeon assembly: grid packing, flattening and stitching.

use std::collections::HashSet;
use dungeon::{Area, ConnectionStrategy, Dungeon, GenerateOutcome, RandomSource, RoomGenerator, Tunneler, Vector2Int};

fn make_area(generator: RoomGenerator, tunneler: Tunneler, strategy: ConnectionStrategy) -> Area {
    Area::new(generator, tunneler, strategy)
}

#[test]
fn single_chamber_dungeon_has_exactly_its_room_tiles() {
    // a pinned 5 by 5 chamber yields exactly 25 tiles, whatever the seed
    for seed in [0u64, 1, 99] {
        let mut rng = RandomSource::from_seed(seed);
        let mut d = Dungeon::new(1);
        d.add_area(make_area(
            RoomGenerator::Chamber { min_size: 5, max_size: 5 },
            Tunneler::Weighted,
            ConnectionStrategy::Basic,
        ));
        assert_eq!(d.generate(&mut rng), GenerateOutcome::Success);
        assert_eq!(d.areas[0].rooms.len(), 1);
        assert!(d.areas[0].paths.is_empty());
        assert_eq!(d.tiles.len(), 25);
        for t in &d.tiles {
            assert!(0 <= t.x && t.x <= 4 && 0 <= t.y && t.y <= 4);
        }
    }
}

#[test]
fn generated_map_is_connected_and_rooms_fit_the_bounding_box() {
    // two rows, four areas of varying sizes
    let mut rng = RandomSource::from_seed(42);
    let mut d = Dungeon::new(2);
    d.add_area(make_area(
        RoomGenerator::Grow { count: 4, min_size: 3, max_size: 6 },
        Tunneler::Weighted,
        ConnectionStrategy::Basic,
    ));
    d.add_area(make_area(
        RoomGenerator::GrowSeparated { count: 4, min_size: 3, max_size: 6 },
        Tunneler::Weighted,
        ConnectionStrategy::Secondary(12),
    ));
    d.add_area(make_area(
        RoomGenerator::Chamber { min_size: 12, max_size: 15 },
        Tunneler::Weighted,
        ConnectionStrategy::Basic,
    ));
    d.add_area(make_area(
        RoomGenerator::GrowSeparated { count: 5, min_size: 2, max_size: 4 },
        Tunneler::LShape,
        ConnectionStrategy::Secondary(20),
    ));
    assert_eq!(d.generate(&mut rng), GenerateOutcome::Success);

    // the tile list is duplicate-free, so its length is the set size
    let occupied: HashSet<(i32, i32)> = d.tiles.iter().map(|t| (t.x, t.y)).collect();
    assert_eq!(occupied.len(), d.tiles.len());

    // the bounding box is at least as large as all the rooms together:
    // positioned rooms never overlap
    let min_x = d.tiles.iter().map(|t| t.x).min().unwrap();
    let max_x = d.tiles.iter().map(|t| t.x).max().unwrap();
    let min_y = d.tiles.iter().map(|t| t.y).min().unwrap();
    let max_y = d.tiles.iter().map(|t| t.y).max().unwrap();
    let bbox_area = (max_x - min_x + 1) as i64 * (max_y - min_y + 1) as i64;
    let room_tiles: i64 = d
        .areas
        .iter()
        .map(|a| a.rooms.iter().map(|r| r.get_tiles().len() as i64).sum::<i64>())
        .sum();
    assert!(bbox_area >= room_tiles);

    // every occupied tile reaches every other by orthogonal steps through
    // occupied tiles
    let start = (d.tiles[0].x, d.tiles[0].y);
    let mut seen: HashSet<(i32, i32)> = HashSet::new();
    let mut queue = vec![start];
    seen.insert(start);
    while let Some((x, y)) = queue.pop() {
        for (nx, ny) in [(x + 1, y), (x - 1, y), (x, y + 1), (x, y - 1)] {
            if occupied.contains(&(nx, ny)) && seen.insert((nx, ny)) {
                queue.push((nx, ny));
            }
        }
    }
    assert_eq!(seen.len(), occupied.len());
}

#[test]
fn positioned_areas_do_not_share_tiles() {
    let mut rng = RandomSource::from_seed(7);
    let mut d = Dungeon::new(2);
    for _ in 0..4 {
        d.add_area(make_area(
            RoomGenerator::Grow { count: 3, min_size: 2, max_size: 5 },
            Tunneler::Weighted,
            ConnectionStrategy::Basic,
        ));
    }
    assert_eq!(d.generate(&mut rng), GenerateOutcome::Success);
    for i in 0..d.areas.len() {
        for j in 0..d.areas.len() {
            if i == j {
                continue;
            }
            let (ilo, ihi) = d.areas[i].get_bounds();
            let (jlo, jhi) = d.areas[j].get_bounds();
            let separated = ihi.x < jlo.x || jhi.x < ilo.x || ihi.y < jlo.y || jhi.y < ilo.y;
            assert!(separated);
        }
    }
}

#[test]
fn add_area_assigns_rows_round_robin() {
    let mut d = Dungeon::new(3);
    for _ in 0..7 {
        d.add_area(make_area(
            RoomGenerator::Chamber { min_size: 2, max_size: 2 },
            Tunneler::LShape,
            ConnectionStrategy::Basic,
        ));
    }
    assert_eq!(d.rows.len(), 3);
    assert_eq!(d.rows[0], vec![0, 3, 6]);
    assert_eq!(d.rows[1], vec![1, 4]);
    assert_eq!(d.rows[2], vec![2, 5]);
}

#[test]
fn get_dim_reports_the_maximum_tile() {
    let mut rng = RandomSource::from_seed(3);
    let mut d = Dungeon::new(1);
    d.add_area(make_area(
        RoomGenerator::Chamber { min_size: 4, max_size: 4 },
        Tunneler::LShape,
        ConnectionStrategy::Basic,
    ));
    assert_eq!(d.generate(&mut rng), GenerateOutcome::Success);
    let dim = d.get_dim();
    assert_eq!(dim, Vector2Int::new(3, 3));
}

#[test]
fn dungeon_generation_is_reproducible_for_a_fixed_seed() {
    let build = || {
        let mut d = Dungeon::new(2);
        for _ in 0..3 {
            d.add_area(make_area(
                RoomGenerator::Grow { count: 3, min_size: 2, max_size: 4 },
                Tunneler::LShape,
                ConnectionStrategy::Basic,
            ));
        }
        d
    };
    let mut d1 = build();
    let mut d2 = build();
    let mut rng1 = RandomSource::from_seed(1234);
    let mut rng2 = RandomSource::from_seed(1234);
    assert_eq!(d1.generate(&mut rng1), GenerateOutcome::Success);
    assert_eq!(d2.generate(&mut rng2), GenerateOutcome::Success);
    assert_eq!(d1.tiles, d2.tiles);
}

#[test]
fn oversized_layout_is_refused_with_areas_intact() {
    // a chamber as wide as the world itself cannot be packed with spacing
    let mut rng = RandomSource::from_seed(5);
    let mut d = Dungeon::new(1);
    d.add_area(make_area(
        RoomGenerator::Chamber { min_size: 0x1000_0000, max_size: 0x1000_0000 },
        Tunneler::LShape,
        ConnectionStrategy::Basic,
    ));
    assert_eq!(d.generate(&mut rng), GenerateOutcome::LayoutTooLarge);
    // the area kept its generated layout; no tiles were written
    assert_eq!(d.areas[0].rooms.len(), 1);
    assert!(d.tiles.is_empty());
}

#[test]
fn seed_only_dungeons_always_succeed() {
    // chambers and single-room growths need no placement retries and the
    // worst-case sizes fit, so generation cannot fail
    for seed in 0..20u64 {
        let mut rng = RandomSource::from_seed(seed);
        let mut d = Dungeon::new(2);
        d.add_area(make_area(
            RoomGenerator::Chamber { min_size: 2, max_size: 9 },
            Tunneler::LShape,
            ConnectionStrategy::Basic,
        ));
        d.add_area(make_area(
            RoomGenerator::Grow { count: 1, min_size: 3, max_size: 7 },
            Tunneler::Weighted,
            ConnectionStrategy::Basic,
        ));
        d.add_area(make_area(
            RoomGenerator::GrowSeparated { count: 0, min_size: 2, max_size: 5 },
            Tunneler::LShape,
            ConnectionStrategy::Secondary(10),
        ));
        assert_eq!(d.generate(&mut rng), GenerateOutcome::Success);
        assert!(!d.tiles.is_empty());
    }
}
