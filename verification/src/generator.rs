//! Room-set generation: each variant produces an ordered room sequence plus
//! the mandatory connection edges that keep every room reachable from the
//! seed room.
//!
//! Growth places each new room near a randomly chosen existing one and
//! retries on overlap.  Unlike an unbounded retry loop, placement carries an
//! explicit attempt ceiling and reports failure instead of spinning forever.

use vstd::prelude::*;
use crate::vectors::{Vector2Int, WORLD_LIMIT};
use crate::random::RandomSource;
use crate::room::{Room, room_wf, room_in_world, rooms_intersect, border_val};

verus! {

/// How many placements are attempted for one room before generation
/// reports failure.
pub const MAX_PLACE_ATTEMPTS: u32 = 1000;

/// Selects how a room set is generated.
pub enum RoomGenerator {
    /// A single randomly sized room at the origin.
    Chamber { min_size: u32, max_size: u32 },
    /// `count` rooms grown outward from the seed room, allowed to abut.
    Grow { count: u32, min_size: u32, max_size: u32 },
    /// Like `Grow`, but rooms keep a fixed gap of at least two tiles.
    GrowSeparated { count: u32, min_size: u32, max_size: u32 },
}

/// Every room is normalized and within the world bound.
pub open spec fn rooms_ok(rooms: Seq<Room>) -> bool {
    forall|i: int| 0 <= i < rooms.len() ==> room_wf(#[trigger] rooms[i]) && room_in_world(rooms[i])
}

/// No two distinct rooms intersect once inflated by `border`.
pub open spec fn pairwise_separated(rooms: Seq<Room>, border: int) -> bool {
    forall|i: int, j: int| 0 <= i < rooms.len() && 0 <= j < rooms.len() && i != j
        ==> !#[trigger] rooms_intersect(rooms[i], rooms[j], border)
}

/// Edge `k` always connects the freshly placed room `k + 1` back to one of
/// the rooms placed before it.
pub open spec fn edge_list_ok(conns: Seq<(usize, usize)>) -> bool {
    forall|k: int| 0 <= k < conns.len() ==> (#[trigger] conns[k]).1 == k + 1 && conns[k].0 <= k
}

/// Room `i` reaches room 0 by walking mandatory edges toward lower
/// indices.
pub open spec fn reaches_root(conns: Seq<(usize, usize)>, i: int) -> bool
    decreases i,
{
    if i == 0 {
        true
    } else if 0 < i <= conns.len() && conns[i - 1].0 < i {
        reaches_root(conns, conns[i - 1].0 as int)
    } else {
        false
    }
}

/// Mandatory edges that always tie a new room to an earlier one form a
/// connected tree: every room reaches room 0 along them.
pub proof fn lemma_edge_tree_connected(conns: Seq<(usize, usize)>, i: int)
    requires
        edge_list_ok(conns),
        0 <= i <= conns.len(),
    ensures
        reaches_root(conns, i),
    decreases i,
{
    if i > 0 {
        assert(conns[i - 1].1 == i && conns[i - 1].0 <= i - 1);
        lemma_edge_tree_connected(conns, conns[i - 1].0 as int);
    }
}

/// The inflation a variant demands between its rooms.
pub open spec fn gen_border(g: RoomGenerator) -> int {
    match g {
        RoomGenerator::GrowSeparated { .. } => 2,
        _ => 0,
    }
}

/// How many rooms a variant yields: a count of 0 or 1 still yields the
/// seed room.
pub open spec fn expected_rooms(g: RoomGenerator) -> int {
    match g {
        RoomGenerator::Chamber { .. } => 1,
        RoomGenerator::Grow { count, .. } => if count == 0 { 1int } else { count as int },
        RoomGenerator::GrowSeparated { count, .. } => if count == 0 { 1int } else { count as int },
    }
}

/// The size parameters every variant must respect: rooms are at least one
/// tile wide, and fit the world bound.
pub open spec fn params_ok(g: RoomGenerator) -> bool {
    match g {
        RoomGenerator::Chamber { min_size, max_size } =>
            1 <= min_size <= max_size <= WORLD_LIMIT as int,
        RoomGenerator::Grow { min_size, max_size, .. } =>
            1 <= min_size <= max_size <= WORLD_LIMIT as int,
        RoomGenerator::GrowSeparated { min_size, max_size, .. } =>
            1 <= min_size <= max_size <= WORLD_LIMIT as int,
    }
}

/// The seed room spans between `min_size` and `max_size` tiles on each
/// axis.
pub open spec fn seed_size_ok(min_size: int, max_size: int, rooms: Seq<Room>) -> bool {
    &&& min_size <= rooms[0].b.x - rooms[0].a.x + 1 <= max_size
    &&& min_size <= rooms[0].b.y - rooms[0].a.y + 1 <= max_size
}

/// The seed room's span, and every grown room's corner offset, lie in the
/// sampled size range.
pub open spec fn grown_sizes_ok(min_size: int, max_size: int, rooms: Seq<Room>) -> bool {
    &&& seed_size_ok(min_size, max_size, rooms)
    &&& forall|i: int| 1 <= i < rooms.len()
        ==> min_size <= (#[trigger] rooms[i]).b.x - rooms[i].a.x <= max_size
            && min_size <= rooms[i].b.y - rooms[i].a.y <= max_size
}

/// The size guarantee each variant gives for its rooms.
pub open spec fn room_sizes_ok(g: RoomGenerator, rooms: Seq<Room>) -> bool {
    match g {
        RoomGenerator::Chamber { min_size, max_size } =>
            seed_size_ok(min_size as int, max_size as int, rooms),
        RoomGenerator::Grow { min_size, max_size, .. } =>
            grown_sizes_ok(min_size as int, max_size as int, rooms),
        RoomGenerator::GrowSeparated { min_size, max_size, .. } =>
            grown_sizes_ok(min_size as int, max_size as int, rooms),
    }
}

/// What a successful generation yields: the expected number of rooms, all
/// normalized, in the world and sized within the variant's range, one tree
/// edge per room after the seed, no two rooms intersecting at the
/// variant's border, and the seed room's minimum corner at the origin.
pub open spec fn generator_post(g: RoomGenerator, rooms: Seq<Room>, conns: Seq<(usize, usize)>) -> bool {
    &&& rooms.len() == expected_rooms(g)
    &&& conns.len() == rooms.len() - 1
    &&& edge_list_ok(conns)
    &&& rooms_ok(rooms)
    &&& pairwise_separated(rooms, gen_border(g))
    &&& rooms[0].a == (Vector2Int { x: 0, y: 0 })
    &&& room_sizes_ok(g, rooms)
}

impl RoomGenerator {
    /// Runs this variant.  `None` means the growth loop hit its attempt
    /// ceiling; a chamber, or a growth of at most one room, always
    /// succeeds.
    pub fn generate(&self, rng: &mut RandomSource) -> (r: Option<(Vec<Room>, Vec<(usize, usize)>)>)
        requires
            params_ok(*self),
        ensures
            match r {
                Some(pair) => generator_post(*self, pair.0@, pair.1@),
                None => expected_rooms(*self) > 1,
            },
            expected_rooms(*self) <= 1 ==> r is Some,
    {
        match self {
            RoomGenerator::Chamber { min_size, max_size } => {
                let pair = chamber_generator(*min_size, *max_size, rng);
                Some(pair)
            },
            RoomGenerator::Grow { count, min_size, max_size } => {
                grow_generator(*count, *min_size, *max_size, None, rng)
            },
            RoomGenerator::GrowSeparated { count, min_size, max_size } => {
                grow_generator(*count, *min_size, *max_size, Some(2), rng)
            },
        }
    }
}

/// Emits one room whose width and height are drawn independently from
/// `[min_size, max_size]`, with its minimum corner at the origin, and no
/// connections.
pub fn chamber_generator(min_size: u32, max_size: u32, rng: &mut RandomSource)
    -> (r: (Vec<Room>, Vec<(usize, usize)>))
    requires
        1 <= min_size <= max_size <= WORLD_LIMIT as int,
    ensures
        r.0@.len() == 1,
        r.1@.len() == 0,
        r.0@[0].a == (Vector2Int { x: 0, y: 0 }),
        min_size - 1 <= r.0@[0].b.x <= max_size - 1,
        min_size - 1 <= r.0@[0].b.y <= max_size - 1,
        rooms_ok(r.0@),
        edge_list_ok(r.1@),
        pairwise_separated(r.0@, 0),
{
    let w = rng.range_u32(min_size, max_size);
    let h = rng.range_u32(min_size, max_size);
    let chamber = Room::new(Vector2Int::new(0, 0), Vector2Int::new((w - 1) as i32, (h - 1) as i32));
    let rooms: Vec<Room> = vec![chamber];
    let conns: Vec<(usize, usize)> = Vec::new();
    (rooms, conns)
}

/// Grows a set of `count` rooms (at least one): the seed room sits at the
/// origin; each further room is placed near a random existing room, with a
/// corner sampled in a window of half-width `max_size` plus the border
/// around that room's centre, pushed outward so it cannot collapse onto
/// the reference room, and rejected while it intersects any existing room
/// inflated by the border.  `None` when a room exhausts its placement
/// attempts.
pub fn grow_generator(count: u32, min_size: u32, max_size: u32, room_border: Option<i32>, rng: &mut RandomSource)
    -> (r: Option<(Vec<Room>, Vec<(usize, usize)>)>)
    requires
        1 <= min_size <= max_size <= WORLD_LIMIT as int,
        0 <= border_val(room_border) <= WORLD_LIMIT as int,
    ensures
        match r {
            Some(pair) => {
                &&& pair.0@.len() == if count == 0 { 1int } else { count as int }
                &&& pair.1@.len() == pair.0@.len() - 1
                &&& edge_list_ok(pair.1@)
                &&& rooms_ok(pair.0@)
                &&& pairwise_separated(pair.0@, border_val(room_border))
                &&& pair.0@[0].a == (Vector2Int { x: 0, y: 0 })
                &&& grown_sizes_ok(min_size as int, max_size as int, pair.0@)
            },
            None => count > 1,
        },
        count <= 1 ==> r is Some,
{
    let target: usize = if count == 0 { 1 } else { count as usize };
    let bval: i32 = match room_border {
        Some(v) => v,
        None => 0,
    };
    let d: i32 = max_size as i32 + bval;

    let w0 = rng.range_u32(min_size, max_size);
    let h0 = rng.range_u32(min_size, max_size);
    let seed = Room::new(Vector2Int::new(0, 0), Vector2Int::new((w0 - 1) as i32, (h0 - 1) as i32));
    let mut rooms: Vec<Room> = Vec::new();
    rooms.push(seed);
    let mut conns: Vec<(usize, usize)> = Vec::new();

    while rooms.len() < target
        invariant
            1 <= rooms@.len() <= target,
            target == if count == 0 { 1int } else { count as int },
            conns@.len() == rooms@.len() - 1,
            edge_list_ok(conns@),
            rooms_ok(rooms@),
            pairwise_separated(rooms@, bval as int),
            rooms@[0].a == (Vector2Int { x: 0, y: 0 }),
            grown_sizes_ok(min_size as int, max_size as int, rooms@),
            1 <= min_size <= max_size <= WORLD_LIMIT as int,
            0 <= bval <= WORLD_LIMIT as int,
            border_val(room_border) == bval as int,
            d == max_size + bval,
        decreases target - rooms@.len(),
    {
        let mut found: Option<(Room, usize)> = None;
        let mut attempts: u32 = 0;
        while attempts < MAX_PLACE_ATTEMPTS && found.is_none()
            invariant
                rooms@.len() >= 1,
                rooms_ok(rooms@),
                1 <= min_size <= max_size <= WORLD_LIMIT as int,
                0 <= bval <= WORLD_LIMIT as int,
                border_val(room_border) == bval as int,
                d == max_size + bval,
                match found {
                    Some(pair) => {
                        &&& pair.1 < rooms@.len()
                        &&& room_wf(pair.0)
                        &&& room_in_world(pair.0)
                        &&& min_size <= pair.0.b.x - pair.0.a.x <= max_size
                        &&& min_size <= pair.0.b.y - pair.0.a.y <= max_size
                        &&& forall|j: int| 0 <= j < rooms@.len()
                            ==> !#[trigger] rooms_intersect(pair.0, rooms@[j], bval as int)
                    },
                    None => true,
                },
            decreases MAX_PLACE_ATTEMPTS - attempts,
        {
            attempts = attempts + 1;
            let prev_idx = rng.index(rooms.len());
            let c = rooms[prev_idx].centre();

            let ax = rng.range_i32(c.x - d, c.x + d);
            let ay = rng.range_i32(c.y - d, c.y + d);
            let a = Vector2Int::new(ax, ay);

            // outward direction: the sign of the sampled corner relative to
            // the centre, with a random sign where the offset is zero
            let mut dvx: i32 = if ax > c.x { 1 } else if ax < c.x { -1 } else { 0 };
            let mut dvy: i32 = if ay > c.y { 1 } else if ay < c.y { -1 } else { 0 };
            if dvx == 0 {
                dvx = rng.sign();
            }
            if dvy == 0 {
                dvy = rng.sign();
            }

            let w = rng.range_u32(min_size, max_size) as i32;
            let h = rng.range_u32(min_size, max_size) as i32;
            let ox: i32 = if dvx >= 0 { w } else { 0 - w };
            let oy: i32 = if dvy >= 0 { h } else { 0 - h };
            let b = a.add(Vector2Int::new(ox, oy));
            let cand = Room::new(a, b);

            // the candidate must stay inside the world bound
            let within = cand.a.x >= -WORLD_LIMIT && cand.b.x <= WORLD_LIMIT
                && cand.a.y >= -WORLD_LIMIT && cand.b.y <= WORLD_LIMIT;

            if within {
                // reject the candidate if it overlaps any existing room
                let mut hit = false;
                let mut i: usize = 0;
                while i < rooms.len()
                    invariant
                        i <= rooms@.len(),
                        rooms_ok(rooms@),
                        room_wf(cand),
                        room_in_world(cand),
                        -(WORLD_LIMIT as int) <= bval <= WORLD_LIMIT as int,
                        border_val(room_border) == bval as int,
                        !hit ==> forall|j: int| 0 <= j < i
                            ==> !#[trigger] rooms_intersect(cand, rooms@[j], bval as int),
                    decreases rooms@.len() - i,
                {
                    if cand.intersects(&rooms[i], room_border) {
                        hit = true;
                    }
                    i = i + 1;
                }

                if !hit {
                    proof {
                        assert(cand.b.x - cand.a.x == w && cand.b.y - cand.a.y == h);
                    }
                    found = Some((cand, prev_idx));
                }
            }
        }
        match found {
            None => {
                return None;
            },
            Some(pair) => {
                let (new_room, prev_idx) = pair;
                let ghost old_rooms = rooms@;
                conns.push((prev_idx, rooms.len()));
                rooms.push(new_room);
                proof {
                    assert(rooms@ == old_rooms.push(new_room));
                    assert(grown_sizes_ok(min_size as int, max_size as int, rooms@)) by {
                        assert(rooms@[0] == old_rooms[0]);
                        assert forall|i: int| 1 <= i < rooms@.len()
                            implies min_size <= (#[trigger] rooms@[i]).b.x - rooms@[i].a.x <= max_size
                                && min_size <= rooms@[i].b.y - rooms@[i].a.y <= max_size by {
                            if i < old_rooms.len() {
                                assert(rooms@[i] == old_rooms[i]);
                            } else {
                                assert(rooms@[i] == new_room);
                            }
                        }
                    }
                    assert forall|i: int, j: int|
                        0 <= i < rooms@.len() && 0 <= j < rooms@.len() && i != j
                        implies !#[trigger] rooms_intersect(rooms@[i], rooms@[j], bval as int) by {
                        if i < old_rooms.len() && j < old_rooms.len() {
                            assert(rooms@[i] == old_rooms[i] && rooms@[j] == old_rooms[j]);
                        } else if i == old_rooms.len() {
                            assert(rooms@[i] == new_room && rooms@[j] == old_rooms[j]);
                            assert(!rooms_intersect(new_room, old_rooms[j], bval as int));
                        } else {
                            assert(rooms@[j] == new_room && rooms@[i] == old_rooms[i]);
                            assert(!rooms_intersect(new_room, old_rooms[i], bval as int));
                        }
                    }
                }
            },
        }
    }
    Some((rooms, conns))
}

} // verus!
