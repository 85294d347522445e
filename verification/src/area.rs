//! An independently generated sub-layout: a room set with its corridors,
//! its generation configuration, a bounding box, whole-area translation,
//! and nearest-pair joining toward another area.

use vstd::prelude::*;
use crate::vectors::{Vector2Int, in_world, manhattan_dist, WORLD_LIMIT};
use crate::random::RandomSource;
use crate::room::{Room, room_wf, room_in_world, in_room, joins_rooms};
use crate::generator::{RoomGenerator, rooms_ok, params_ok, generator_post, expected_rooms};
use crate::strategy::{ConnectionStrategy, plan_post, edges_in_range};
use crate::tunnels::{Tunneler, tunnel_post, corridor, imin, imax, tile};

verus! {

/// Minimum over the rooms' minimum-corner x coordinates.
pub open spec fn min_ax(rooms: Seq<Room>) -> int
    recommends rooms.len() >= 1,
    decreases rooms.len(),
{
    if rooms.len() <= 1 {
        rooms[0].a.x as int
    } else {
        imin(min_ax(rooms.drop_last()), rooms.last().a.x as int)
    }
}

/// Minimum over the rooms' minimum-corner y coordinates.
pub open spec fn min_ay(rooms: Seq<Room>) -> int
    recommends rooms.len() >= 1,
    decreases rooms.len(),
{
    if rooms.len() <= 1 {
        rooms[0].a.y as int
    } else {
        imin(min_ay(rooms.drop_last()), rooms.last().a.y as int)
    }
}

/// Maximum over the rooms' maximum-corner x coordinates.
pub open spec fn max_bx(rooms: Seq<Room>) -> int
    recommends rooms.len() >= 1,
    decreases rooms.len(),
{
    if rooms.len() <= 1 {
        rooms[0].b.x as int
    } else {
        imax(max_bx(rooms.drop_last()), rooms.last().b.x as int)
    }
}

/// Maximum over the rooms' maximum-corner y coordinates.
pub open spec fn max_by(rooms: Seq<Room>) -> int
    recommends rooms.len() >= 1,
    decreases rooms.len(),
{
    if rooms.len() <= 1 {
        rooms[0].b.y as int
    } else {
        imax(max_by(rooms.drop_last()), rooms.last().b.y as int)
    }
}

/// The bounds are attained by some room and bound every room.
pub proof fn lemma_bounds_characterize(rooms: Seq<Room>)
    requires
        rooms.len() >= 1,
    ensures
        forall|i: int| 0 <= i < rooms.len()
            ==> min_ax(rooms) <= (#[trigger] rooms[i]).a.x
                && min_ay(rooms) <= rooms[i].a.y
                && rooms[i].b.x <= max_bx(rooms)
                && rooms[i].b.y <= max_by(rooms),
        exists|i: int| 0 <= i < rooms.len() && min_ax(rooms) == (#[trigger] rooms[i]).a.x,
        exists|i: int| 0 <= i < rooms.len() && min_ay(rooms) == (#[trigger] rooms[i]).a.y,
        exists|i: int| 0 <= i < rooms.len() && max_bx(rooms) == (#[trigger] rooms[i]).b.x,
        exists|i: int| 0 <= i < rooms.len() && max_by(rooms) == (#[trigger] rooms[i]).b.y,
    decreases rooms.len(),
{
    if rooms.len() > 1 {
        lemma_bounds_characterize(rooms.drop_last());
        assert(forall|i: int| 0 <= i < rooms.len() - 1 ==> rooms.drop_last()[i] == rooms[i]);
        assert(rooms.last() == rooms[rooms.len() - 1]);
        let iax = choose|i: int| 0 <= i < rooms.drop_last().len()
            && min_ax(rooms.drop_last()) == (#[trigger] rooms.drop_last()[i]).a.x;
        let iay = choose|i: int| 0 <= i < rooms.drop_last().len()
            && min_ay(rooms.drop_last()) == (#[trigger] rooms.drop_last()[i]).a.y;
        let ibx = choose|i: int| 0 <= i < rooms.drop_last().len()
            && max_bx(rooms.drop_last()) == (#[trigger] rooms.drop_last()[i]).b.x;
        let iby = choose|i: int| 0 <= i < rooms.drop_last().len()
            && max_by(rooms.drop_last()) == (#[trigger] rooms.drop_last()[i]).b.y;
        if min_ax(rooms) != rooms.last().a.x {
            assert(min_ax(rooms) == rooms[iax].a.x);
        }
        if min_ay(rooms) != rooms.last().a.y {
            assert(min_ay(rooms) == rooms[iay].a.y);
        }
        if max_bx(rooms) != rooms.last().b.x {
            assert(max_bx(rooms) == rooms[ibx].b.x);
        }
        if max_by(rooms) != rooms.last().b.y {
            assert(max_by(rooms) == rooms[iby].b.y);
        }
    } else {
        assert(min_ax(rooms) == rooms[0].a.x);
    }
}

/// For normalized in-world rooms the bounds are ordered and in the world.
pub proof fn lemma_bounds_range(rooms: Seq<Room>)
    requires
        rooms.len() >= 1,
        rooms_ok(rooms),
    ensures
        -(WORLD_LIMIT as int) <= min_ax(rooms) <= max_bx(rooms) <= WORLD_LIMIT as int,
        -(WORLD_LIMIT as int) <= min_ay(rooms) <= max_by(rooms) <= WORLD_LIMIT as int,
{
    lemma_bounds_characterize(rooms);
    assert(min_ax(rooms) <= rooms[0].a.x);
    assert(rooms[0].b.x <= max_bx(rooms));
    let i = choose|i: int| 0 <= i < rooms.len() && min_ax(rooms) == (#[trigger] rooms[i]).a.x;
    assert(room_in_world(rooms[i]));
    let j = choose|j: int| 0 <= j < rooms.len() && max_bx(rooms) == (#[trigger] rooms[j]).b.x;
    assert(room_in_world(rooms[j]));
    let k = choose|k: int| 0 <= k < rooms.len() && min_ay(rooms) == (#[trigger] rooms[k]).a.y;
    assert(room_in_world(rooms[k]));
    let m = choose|m: int| 0 <= m < rooms.len() && max_by(rooms) == (#[trigger] rooms[m]).b.y;
    assert(room_in_world(rooms[m]));
}

/// The room translated by `(dx, dy)`.
pub open spec fn translate_room(r: Room, dx: int, dy: int) -> Room {
    Room { a: tile(r.a.x + dx, r.a.y + dy), b: tile(r.b.x + dx, r.b.y + dy) }
}

/// The path translated pointwise by `(dx, dy)`.
pub open spec fn translate_path(p: Seq<Vector2Int>, dx: int, dy: int) -> Seq<Vector2Int> {
    p.map_values(|q: Vector2Int| tile(q.x + dx, q.y + dy))
}

/// Translating every room moves the bounds by the same delta, provided no
/// coordinate leaves the machine range.
pub proof fn lemma_bounds_translate(rooms: Seq<Room>, dx: int, dy: int)
    requires
        rooms.len() >= 1,
        forall|i: int| 0 <= i < rooms.len()
            ==> i32::MIN <= (#[trigger] rooms[i]).a.x + dx <= i32::MAX
                && i32::MIN <= rooms[i].a.y + dy <= i32::MAX
                && i32::MIN <= rooms[i].b.x + dx <= i32::MAX
                && i32::MIN <= rooms[i].b.y + dy <= i32::MAX,
    ensures
        min_ax(rooms.map_values(|r: Room| translate_room(r, dx, dy))) == min_ax(rooms) + dx,
        min_ay(rooms.map_values(|r: Room| translate_room(r, dx, dy))) == min_ay(rooms) + dy,
        max_bx(rooms.map_values(|r: Room| translate_room(r, dx, dy))) == max_bx(rooms) + dx,
        max_by(rooms.map_values(|r: Room| translate_room(r, dx, dy))) == max_by(rooms) + dy,
    decreases rooms.len(),
{
    let t = rooms.map_values(|r: Room| translate_room(r, dx, dy));
    if rooms.len() <= 1 {
        assert(t[0] == translate_room(rooms[0], dx, dy));
    } else {
        lemma_bounds_translate(rooms.drop_last(), dx, dy);
        assert(t.drop_last() =~= rooms.drop_last().map_values(|r: Room| translate_room(r, dx, dy)));
        assert(t.last() == translate_room(rooms.last(), dx, dy));
        assert(rooms.last() == rooms[rooms.len() - 1]);
    }
}

/// `a` is `orig` translated whole by `(dx, dy)`: same configuration, every
/// room corner and every corridor tile moved by the same delta.
pub open spec fn translated_from(orig: Area, a: Area, dx: int, dy: int) -> bool {
    &&& a.generator == orig.generator
    &&& a.tunneler == orig.tunneler
    &&& a.strategy == orig.strategy
    &&& a.rooms@ == orig.rooms@.map_values(|r: Room| translate_room(r, dx, dy))
    &&& a.paths@.len() == orig.paths@.len()
    &&& forall|k: int| 0 <= k < orig.paths@.len()
        ==> (#[trigger] a.paths@[k])@ == translate_path(orig.paths@[k]@, dx, dy)
}

/// `a` is some whole-area translation of `orig`.
pub open spec fn is_translated_copy(a: Area, orig: Area) -> bool {
    exists|dx: int, dy: int| #[trigger] translated_from(orig, a, dx, dy)
}

/// The rooms as `shift(bx, by)` leaves them: every room translated by the
/// delta that moves the current minimum bound to `(bx, by)`.
pub open spec fn shifted_rooms(rooms: Seq<Room>, bx: int, by: int) -> Seq<Room> {
    rooms.map_values(|r: Room| translate_room(r, bx - min_ax(rooms), by - min_ay(rooms)))
}

/// Shifting is composable and idempotent: shifting to one base and then to
/// another leaves exactly what one shift to the final base leaves, and in
/// particular re-shifting to the same base changes nothing.
pub proof fn lemma_shift_composable(rooms: Seq<Room>, bx1: int, by1: int, bx2: int, by2: int)
    requires
        rooms.len() >= 1,
        rooms_ok(rooms),
        -(WORLD_LIMIT as int) <= bx1,
        bx1 + (max_bx(rooms) - min_ax(rooms)) <= WORLD_LIMIT as int,
        -(WORLD_LIMIT as int) <= by1,
        by1 + (max_by(rooms) - min_ay(rooms)) <= WORLD_LIMIT as int,
        -(WORLD_LIMIT as int) <= bx2,
        bx2 + (max_bx(rooms) - min_ax(rooms)) <= WORLD_LIMIT as int,
        -(WORLD_LIMIT as int) <= by2,
        by2 + (max_by(rooms) - min_ay(rooms)) <= WORLD_LIMIT as int,
    ensures
        shifted_rooms(shifted_rooms(rooms, bx1, by1), bx2, by2) == shifted_rooms(rooms, bx2, by2),
        shifted_rooms(shifted_rooms(rooms, bx1, by1), bx1, by1) == shifted_rooms(rooms, bx1, by1),
{
    lemma_bounds_range(rooms);
    lemma_bounds_characterize(rooms);
    let d1x = bx1 - min_ax(rooms);
    let d1y = by1 - min_ay(rooms);
    assert forall|i: int| 0 <= i < rooms.len()
        implies i32::MIN <= (#[trigger] rooms[i]).a.x + d1x <= i32::MAX
            && i32::MIN <= rooms[i].a.y + d1y <= i32::MAX
            && i32::MIN <= rooms[i].b.x + d1x <= i32::MAX
            && i32::MIN <= rooms[i].b.y + d1y <= i32::MAX by {
        assert(min_ax(rooms) <= rooms[i].a.x);
    }
    lemma_bounds_translate(rooms, d1x, d1y);
    let s1 = shifted_rooms(rooms, bx1, by1);
    assert(s1 == rooms.map_values(|r: Room| translate_room(r, d1x, d1y)));
    assert(min_ax(s1) == bx1 && min_ay(s1) == by1);

    let d2x = bx2 - bx1;
    let d2y = by2 - by1;
    assert forall|i: int| 0 <= i < rooms.len()
        implies #[trigger] shifted_rooms(s1, bx2, by2)[i] == shifted_rooms(rooms, bx2, by2)[i] by {
        assert(s1[i] == translate_room(rooms[i], d1x, d1y));
        assert(min_ax(rooms) <= rooms[i].a.x && rooms[i].b.x <= max_bx(rooms));
        assert(min_ay(rooms) <= rooms[i].a.y && rooms[i].b.y <= max_by(rooms));
        assert(s1[i].a.x == rooms[i].a.x + d1x);
        assert(s1[i].a.y == rooms[i].a.y + d1y);
        assert(s1[i].b.x == rooms[i].b.x + d1x);
        assert(s1[i].b.y == rooms[i].b.y + d1y);
        assert(shifted_rooms(s1, bx2, by2)[i] == translate_room(s1[i], d2x, d2y));
    }
    assert(shifted_rooms(s1, bx2, by2) =~= shifted_rooms(rooms, bx2, by2));
    assert forall|i: int| 0 <= i < rooms.len()
        implies #[trigger] shifted_rooms(s1, bx1, by1)[i] == s1[i] by {
        assert(s1[i] == translate_room(rooms[i], d1x, d1y));
        assert(min_ax(rooms) <= rooms[i].a.x && rooms[i].b.x <= max_bx(rooms));
        assert(min_ay(rooms) <= rooms[i].a.y && rooms[i].b.y <= max_by(rooms));
        assert(shifted_rooms(s1, bx1, by1)[i] == translate_room(s1[i], 0, 0));
    }
    assert(shifted_rooms(s1, bx1, by1) =~= s1);
}

/// An independently generated sub-layout and its configuration.
pub struct Area {
    pub rooms: Vec<Room>,
    pub paths: Vec<Vec<Vector2Int>>,
    pub generator: RoomGenerator,
    pub tunneler: Tunneler,
    pub strategy: ConnectionStrategy,
}

/// Structural health of an area: rooms normalized and in the world, and
/// every corridor tile inside the rooms' bounding box (so translation can
/// move rooms and corridors together).
pub open spec fn area_wf(a: Area) -> bool {
    &&& rooms_ok(a.rooms@)
    &&& a.rooms@.len() == 0 ==> a.paths@.len() == 0
    &&& forall|k: int, t: int| 0 <= k < a.paths@.len() && 0 <= t < a.paths@[k]@.len()
        ==> min_ax(a.rooms@) <= (#[trigger] a.paths@[k]@[t]).x <= max_bx(a.rooms@)
            && min_ay(a.rooms@) <= a.paths@[k]@[t].y <= max_by(a.rooms@)
}

/// A populated area: its rooms and edges came from its generator and its
/// paths from its strategy, for some mandatory edge list.
pub open spec fn area_generated(a: Area) -> bool {
    exists|conns: Seq<(usize, usize)>|
        #[trigger] generator_post(a.generator, a.rooms@, conns)
            && plan_post(a.strategy, a.tunneler, a.rooms@, conns, a.paths@)
}

/// Any tile of a corridor joining two rooms of the set stays inside the
/// set's bounding box.
pub proof fn lemma_join_path_in_bbox(t: Tunneler, path: Seq<Vector2Int>, rooms: Seq<Room>, x: int, y: int)
    requires
        rooms.len() >= 1,
        rooms_ok(rooms),
        0 <= x < rooms.len(),
        0 <= y < rooms.len(),
        joins_rooms(t, path, rooms[x], rooms[y]),
    ensures
        forall|i: int| 0 <= i < path.len()
            ==> min_ax(rooms) <= (#[trigger] path[i]).x <= max_bx(rooms)
                && min_ay(rooms) <= path[i].y <= max_by(rooms),
{
    let ra = rooms[x];
    let rb = rooms[y];
    let (pa, pb) = choose|pa: Vector2Int, pb: Vector2Int|
        in_room(ra, pa) && in_room(rb, pb) && #[trigger] tunnel_post(t, pa, pb, path);
    lemma_bounds_characterize(rooms);
    assert(room_in_world(ra) && room_in_world(rb));
    match t {
        Tunneler::LShape => {
            crate::tunnels::lemma_l_shape_corridor(pa, pb);
            assert(corridor(path, pa, pb));
        },
        Tunneler::Weighted => {},
    }
    assert forall|i: int| 0 <= i < path.len()
        implies min_ax(rooms) <= (#[trigger] path[i]).x <= max_bx(rooms)
            && min_ay(rooms) <= path[i].y <= max_by(rooms) by {
        assert(crate::tunnels::in_rect(path[i], pa, pb));
        assert(min_ax(rooms) <= ra.a.x && min_ax(rooms) <= rb.a.x);
        assert(ra.b.x <= max_bx(rooms) && rb.b.x <= max_bx(rooms));
        assert(ra.b.y <= max_by(rooms) && rb.b.y <= max_by(rooms));
        assert(min_ay(rooms) <= ra.a.y && min_ay(rooms) <= rb.a.y);
    }
}

impl Area {
    /// An empty area holding only its configuration; populated later by
    /// `generate_rooms`.
    pub fn new(generator: RoomGenerator, tunneler: Tunneler, strategy: ConnectionStrategy) -> (r: Area)
        ensures
            r.rooms@.len() == 0,
            r.paths@.len() == 0,
            r.generator == generator,
            r.tunneler == tunneler,
            r.strategy == strategy,
            area_wf(r),
    {
        Area {
            rooms: Vec::new(),
            paths: Vec::new(),
            generator,
            tunneler,
            strategy,
        }
    }

    /// Runs the generator, then the connection strategy, replacing any
    /// previous layout.  `false` when room placement failed; a chamber, or
    /// a growth of at most one room, always succeeds.
    pub fn generate_rooms(&mut self, rng: &mut RandomSource) -> (ok: bool)
        requires
            params_ok(old(self).generator),
        ensures
            final(self).generator == old(self).generator,
            final(self).tunneler == old(self).tunneler,
            final(self).strategy == old(self).strategy,
            ok ==> final(self).rooms@.len() >= 1 && area_wf(*final(self)) && area_generated(*final(self)),
            !ok ==> *final(self) == *old(self) && expected_rooms(old(self).generator) > 1,
            expected_rooms(old(self).generator) <= 1 ==> ok,
    {
        let generated = self.generator.generate(rng);
        match generated {
            None => false,
            Some(pair) => {
                let (rooms, conns) = pair;
                proof {
                    assert(generator_post(self.generator, rooms@, conns@));
                    assert forall|k: int| 0 <= k < conns@.len()
                        implies (#[trigger] conns@[k]).0 < rooms@.len() && conns@[k].1 < rooms@.len() by {
                        assert(conns@[k].1 == k + 1 && conns@[k].0 <= k);
                    }
                    assert(edges_in_range(conns@, rooms@.len() as int));
                }
                let paths = self.strategy.plan(&rooms, &conns, &self.tunneler, rng);
                self.rooms = rooms;
                self.paths = paths;
                proof {
                    assert(generator_post(self.generator, self.rooms@, conns@)
                        && plan_post(self.strategy, self.tunneler, self.rooms@, conns@, self.paths@));
                    assert(area_generated(*self));
                    assert forall|k: int, t: int|
                        0 <= k < self.paths@.len() && 0 <= t < self.paths@[k]@.len()
                        implies min_ax(self.rooms@) <= (#[trigger] self.paths@[k]@[t]).x <= max_bx(self.rooms@)
                            && min_ay(self.rooms@) <= self.paths@[k]@[t].y <= max_by(self.rooms@) by {
                        if k < conns@.len() {
                            assert(joins_rooms(self.tunneler, self.paths@[k]@,
                                self.rooms@[conns@[k].0 as int], self.rooms@[conns@[k].1 as int]));
                            lemma_join_path_in_bbox(self.tunneler, self.paths@[k]@, self.rooms@,
                                conns@[k].0 as int, conns@[k].1 as int);
                        } else {
                            let (x0, y0) = choose|x: int, y: int|
                                0 <= x < self.rooms@.len() && 0 <= y < self.rooms@.len() && x != y
                                    && #[trigger] joins_rooms(self.tunneler, self.paths@[k]@,
                                        self.rooms@[x], self.rooms@[y]);
                            lemma_join_path_in_bbox(self.tunneler, self.paths@[k]@, self.rooms@, x0, y0);
                        }
                    }
                    assert(area_wf(*self));
                }
                true
            },
        }
    }

    /// The componentwise minimum of all rooms' minimum corners and maximum
    /// of all rooms' maximum corners.  Meaningless before `generate_rooms`.
    pub fn get_bounds(&self) -> (r: (Vector2Int, Vector2Int))
        requires
            self.rooms@.len() >= 1,
        ensures
            r.0.x == min_ax(self.rooms@),
            r.0.y == min_ay(self.rooms@),
            r.1.x == max_bx(self.rooms@),
            r.1.y == max_by(self.rooms@),
    {
        let first = self.rooms[0];
        let mut lo = first.a;
        let mut hi = first.b;
        let mut i: usize = 1;
        while i < self.rooms.len()
            invariant
                1 <= i <= self.rooms@.len(),
                lo.x == min_ax(self.rooms@.subrange(0, i as int)),
                lo.y == min_ay(self.rooms@.subrange(0, i as int)),
                hi.x == max_bx(self.rooms@.subrange(0, i as int)),
                hi.y == max_by(self.rooms@.subrange(0, i as int)),
            decreases self.rooms@.len() - i,
        {
            let room = self.rooms[i];
            proof {
                let pre = self.rooms@.subrange(0, i as int);
                let cur = self.rooms@.subrange(0, i + 1);
                assert(cur.drop_last() =~= pre);
                assert(cur.last() == self.rooms@[i as int]);
            }
            lo = lo.min(room.a);
            hi = hi.max(room.b);
            i = i + 1;
        }
        proof {
            assert(self.rooms@.subrange(0, self.rooms@.len() as int) =~= self.rooms@);
        }
        (lo, hi)
    }

    /// The extent of the bounding box, used for grid packing.
    pub fn get_size(&self) -> (r: Vector2Int)
        requires
            self.rooms@.len() >= 1,
            rooms_ok(self.rooms@),
        ensures
            r.x == max_bx(self.rooms@) - min_ax(self.rooms@),
            r.y == max_by(self.rooms@) - min_ay(self.rooms@),
            0 <= r.x <= 2 * WORLD_LIMIT,
            0 <= r.y <= 2 * WORLD_LIMIT,
    {
        proof {
            lemma_bounds_range(self.rooms@);
        }
        let bounds = self.get_bounds();
        Vector2Int::new(bounds.1.x - bounds.0.x, bounds.1.y - bounds.0.y)
    }

    /// Translates every room corner and corridor tile by the same delta,
    /// chosen so that the bounding box's minimum corner lands on
    /// `(base_x, base_y)`.  Re-shifting to the same base changes nothing,
    /// and two successive shifts equal one shift to the final base.
    pub fn shift(&mut self, base_x: i32, base_y: i32)
        requires
            old(self).rooms@.len() >= 1,
            area_wf(*old(self)),
            -(WORLD_LIMIT as int) <= base_x as int,
            base_x + (max_bx(old(self).rooms@) - min_ax(old(self).rooms@)) <= WORLD_LIMIT as int,
            -(WORLD_LIMIT as int) <= base_y as int,
            base_y + (max_by(old(self).rooms@) - min_ay(old(self).rooms@)) <= WORLD_LIMIT as int,
        ensures
            final(self).generator == old(self).generator,
            final(self).tunneler == old(self).tunneler,
            final(self).strategy == old(self).strategy,
            final(self).rooms@ == old(self).rooms@.map_values(
                |r: Room| translate_room(r,
                    base_x - min_ax(old(self).rooms@),
                    base_y - min_ay(old(self).rooms@))),
            final(self).paths@.len() == old(self).paths@.len(),
            forall|k: int| 0 <= k < old(self).paths@.len()
                ==> (#[trigger] final(self).paths@[k])@ == translate_path(old(self).paths@[k]@,
                    base_x - min_ax(old(self).rooms@),
                    base_y - min_ay(old(self).rooms@)),
            min_ax(final(self).rooms@) == base_x,
            min_ay(final(self).rooms@) == base_y,
            max_bx(final(self).rooms@) == base_x + (max_bx(old(self).rooms@) - min_ax(old(self).rooms@)),
            max_by(final(self).rooms@) == base_y + (max_by(old(self).rooms@) - min_ay(old(self).rooms@)),
            area_wf(*final(self)),
            translated_from(*old(self), *final(self),
                base_x - min_ax(old(self).rooms@), base_y - min_ay(old(self).rooms@)),
    {
        proof {
            lemma_bounds_range(self.rooms@);
        }
        let bounds = self.get_bounds();
        let dx: i32 = base_x - bounds.0.x;
        let dy: i32 = base_y - bounds.0.y;
        let ghost orig_rooms = self.rooms@;
        let ghost orig_paths = self.paths@;

        let mut i: usize = 0;
        while i < self.rooms.len()
            invariant
                i <= self.rooms@.len(),
                self.rooms@.len() == orig_rooms.len(),
                orig_rooms.len() >= 1,
                rooms_ok(orig_rooms),
                dx == base_x - min_ax(orig_rooms),
                dy == base_y - min_ay(orig_rooms),
                -(WORLD_LIMIT as int) <= base_x as int,
                base_x + (max_bx(orig_rooms) - min_ax(orig_rooms)) <= WORLD_LIMIT as int,
                -(WORLD_LIMIT as int) <= base_y as int,
                base_y + (max_by(orig_rooms) - min_ay(orig_rooms)) <= WORLD_LIMIT as int,
                forall|j: int| i <= j < orig_rooms.len() ==> self.rooms@[j] == orig_rooms[j],
                forall|j: int| 0 <= j < i
                    ==> self.rooms@[j] == translate_room(#[trigger] orig_rooms[j], dx as int, dy as int),
                self.paths@ == orig_paths,
                self.generator == old(self).generator,
                self.tunneler == old(self).tunneler,
                self.strategy == old(self).strategy,
            decreases self.rooms@.len() - i,
        {
            proof {
                lemma_bounds_characterize(orig_rooms);
                assert(orig_rooms[i as int].a.x >= min_ax(orig_rooms));
                assert(orig_rooms[i as int].b.x <= max_bx(orig_rooms));
            }
            let room = self.rooms[i];
            let moved = Room {
                a: Vector2Int::new(room.a.x + dx, room.a.y + dy),
                b: Vector2Int::new(room.b.x + dx, room.b.y + dy),
            };
            self.rooms.set(i, moved);
            i = i + 1;
        }

        let mut new_paths: Vec<Vec<Vector2Int>> = Vec::new();
        let mut k: usize = 0;
        while k < self.paths.len()
            invariant
                k <= self.paths@.len(),
                self.paths@ == orig_paths,
                new_paths@.len() == k,
                orig_rooms.len() >= 1,
                rooms_ok(orig_rooms),
                dx == base_x - min_ax(orig_rooms),
                dy == base_y - min_ay(orig_rooms),
                -(WORLD_LIMIT as int) <= base_x as int,
                base_x + (max_bx(orig_rooms) - min_ax(orig_rooms)) <= WORLD_LIMIT as int,
                -(WORLD_LIMIT as int) <= base_y as int,
                base_y + (max_by(orig_rooms) - min_ay(orig_rooms)) <= WORLD_LIMIT as int,
                forall|m: int, t: int| 0 <= m < orig_paths.len() && 0 <= t < orig_paths[m]@.len()
                    ==> min_ax(orig_rooms) <= (#[trigger] orig_paths[m]@[t]).x <= max_bx(orig_rooms)
                        && min_ay(orig_rooms) <= orig_paths[m]@[t].y <= max_by(orig_rooms),
                forall|m: int| 0 <= m < k
                    ==> (#[trigger] new_paths@[m])@ == translate_path(orig_paths[m]@, dx as int, dy as int),
            decreases self.paths@.len() - k,
        {
            let src = &self.paths[k];
            let mut moved_path: Vec<Vector2Int> = Vec::new();
            let mut t: usize = 0;
            while t < src.len()
                invariant
                    t <= src@.len(),
                    src@ == orig_paths[k as int]@,
                    0 <= k < orig_paths.len(),
                    moved_path@.len() == t,
                    forall|u: int| 0 <= u < t
                        ==> moved_path@[u] == tile((#[trigger] orig_paths[k as int]@[u]).x + dx,
                            orig_paths[k as int]@[u].y + dy),
                    forall|u: int| 0 <= u < orig_paths[k as int]@.len()
                        ==> min_ax(orig_rooms) <= (#[trigger] orig_paths[k as int]@[u]).x <= max_bx(orig_rooms)
                            && min_ay(orig_rooms) <= orig_paths[k as int]@[u].y <= max_by(orig_rooms),
                    orig_rooms.len() >= 1,
                    rooms_ok(orig_rooms),
                    dx == base_x - min_ax(orig_rooms),
                    dy == base_y - min_ay(orig_rooms),
                    -(WORLD_LIMIT as int) <= base_x as int,
                    base_x + (max_bx(orig_rooms) - min_ax(orig_rooms)) <= WORLD_LIMIT as int,
                    -(WORLD_LIMIT as int) <= base_y as int,
                    base_y + (max_by(orig_rooms) - min_ay(orig_rooms)) <= WORLD_LIMIT as int,
                decreases src@.len() - t,
            {
                proof {
                    lemma_bounds_range(orig_rooms);
                }
                let p = src[t];
                moved_path.push(Vector2Int::new(p.x + dx, p.y + dy));
                t = t + 1;
            }
            proof {
                assert(moved_path@ =~= translate_path(orig_paths[k as int]@, dx as int, dy as int));
            }
            new_paths.push(moved_path);
            k = k + 1;
        }
        self.paths = new_paths;

        proof {
            assert(self.rooms@ =~= old(self).rooms@.map_values(
                |r: Room| translate_room(r, dx as int, dy as int)));
            assert forall|i2: int| 0 <= i2 < orig_rooms.len()
                implies i32::MIN <= (#[trigger] orig_rooms[i2]).a.x + dx <= i32::MAX
                    && i32::MIN <= orig_rooms[i2].a.y + dy <= i32::MAX
                    && i32::MIN <= orig_rooms[i2].b.x + dx <= i32::MAX
                    && i32::MIN <= orig_rooms[i2].b.y + dy <= i32::MAX by {
                lemma_bounds_characterize(orig_rooms);
                lemma_bounds_range(orig_rooms);
            }
            lemma_bounds_translate(orig_rooms, dx as int, dy as int);
            lemma_bounds_characterize(self.rooms@);
            lemma_bounds_range(orig_rooms);
            assert(rooms_ok(self.rooms@)) by {
                assert forall|j: int| 0 <= j < self.rooms@.len()
                    implies room_wf(#[trigger] self.rooms@[j]) && room_in_world(self.rooms@[j]) by {
                    assert(self.rooms@[j] == translate_room(orig_rooms[j], dx as int, dy as int));
                    lemma_bounds_characterize(orig_rooms);
                    assert(min_ax(orig_rooms) <= orig_rooms[j].a.x);
                }
            }
            assert(area_wf(*self)) by {
                assert forall|m: int, t2: int|
                    0 <= m < self.paths@.len() && 0 <= t2 < self.paths@[m]@.len()
                    implies min_ax(self.rooms@) <= (#[trigger] self.paths@[m]@[t2]).x <= max_bx(self.rooms@)
                        && min_ay(self.rooms@) <= self.paths@[m]@[t2].y <= max_by(self.rooms@) by {
                    assert(self.paths@[m]@ == translate_path(orig_paths[m]@, dx as int, dy as int));
                    assert(self.paths@[m]@[t2] == tile(orig_paths[m]@[t2].x + dx, orig_paths[m]@[t2].y + dy));
                }
            }
        }
    }

    /// Draws a corridor between random interior points of the closest pair
    /// of rooms (by minimum corner-to-corner Manhattan distance) between
    /// this area and another, using this area's tunneler.  Mutates neither
    /// area's layout.
    pub fn join(&self, other: &Area, rng: &mut RandomSource) -> (r: Vec<Vector2Int>)
        requires
            self.rooms@.len() >= 1,
            other.rooms@.len() >= 1,
            rooms_ok(self.rooms@),
            rooms_ok(other.rooms@),
        ensures
            exists|i: int, j: int|
                0 <= i < self.rooms@.len() && 0 <= j < other.rooms@.len()
                    && #[trigger] joins_rooms(self.tunneler, r@, self.rooms@[i], other.rooms@[j])
                    && (forall|i2: int, j2: int|
                        0 <= i2 < self.rooms@.len() && 0 <= j2 < other.rooms@.len()
                            ==> room_dist(self.rooms@[i], other.rooms@[j])
                                <= #[trigger] room_dist(self.rooms@[i2], other.rooms@[j2])),
    {
        let pair = self.get_closest_rooms(other);
        let path = self.rooms[pair.0].join(&other.rooms[pair.1], &self.tunneler, rng);
        proof {
            assert(joins_rooms(self.tunneler, path@, self.rooms@[pair.0 as int], other.rooms@[pair.1 as int]));
        }
        path
    }

    /// The pair of rooms, one from each area, whose minimum
    /// corner-to-corner Manhattan distance is smallest (first such pair in
    /// scan order).
    fn get_closest_rooms(&self, other: &Area) -> (r: (usize, usize))
        requires
            self.rooms@.len() >= 1,
            other.rooms@.len() >= 1,
            rooms_ok(self.rooms@),
            rooms_ok(other.rooms@),
        ensures
            r.0 < self.rooms@.len(),
            r.1 < other.rooms@.len(),
            forall|i2: int, j2: int|
                0 <= i2 < self.rooms@.len() && 0 <= j2 < other.rooms@.len()
                    ==> room_dist(self.rooms@[r.0 as int], other.rooms@[r.1 as int])
                        <= #[trigger] room_dist(self.rooms@[i2], other.rooms@[j2]),
    {
        let mut best_i: usize = 0;
        let mut best_j: usize = 0;
        let mut best_d: i32 = room_dist_exec(&self.rooms[0], &other.rooms[0]);
        let mut i: usize = 0;
        while i < self.rooms.len()
            invariant
                i <= self.rooms@.len(),
                self.rooms@.len() >= 1,
                other.rooms@.len() >= 1,
                rooms_ok(self.rooms@),
                rooms_ok(other.rooms@),
                best_i < self.rooms@.len(),
                best_j < other.rooms@.len(),
                best_d == room_dist(self.rooms@[best_i as int], other.rooms@[best_j as int]),
                forall|i2: int, j2: int|
                    0 <= i2 < i && 0 <= j2 < other.rooms@.len()
                        ==> best_d <= #[trigger] room_dist(self.rooms@[i2], other.rooms@[j2]),
            decreases self.rooms@.len() - i,
        {
            let mut j: usize = 0;
            while j < other.rooms.len()
                invariant
                    i < self.rooms@.len(),
                    j <= other.rooms@.len(),
                    other.rooms@.len() >= 1,
                    rooms_ok(self.rooms@),
                    rooms_ok(other.rooms@),
                    best_i < self.rooms@.len(),
                    best_j < other.rooms@.len(),
                    best_d == room_dist(self.rooms@[best_i as int], other.rooms@[best_j as int]),
                    forall|i2: int, j2: int|
                        0 <= i2 < i && 0 <= j2 < other.rooms@.len()
                            ==> best_d <= #[trigger] room_dist(self.rooms@[i2], other.rooms@[j2]),
                    forall|j2: int| 0 <= j2 < j
                        ==> best_d <= #[trigger] room_dist(self.rooms@[i as int], other.rooms@[j2]),
                decreases other.rooms@.len() - j,
            {
                let d = room_dist_exec(&self.rooms[i], &other.rooms[j]);
                if d < best_d {
                    best_i = i;
                    best_j = j;
                    best_d = d;
                }
                j = j + 1;
            }
            i = i + 1;
        }
        (best_i, best_j)
    }
}

/// A corner of the room: 0 its minimum, 1 the x-maximal, 2 its maximum,
/// 3 the y-maximal.
pub open spec fn corner(r: Room, k: int) -> Vector2Int {
    if k == 0 {
        r.a
    } else if k == 1 {
        Vector2Int { x: r.b.x, y: r.a.y }
    } else if k == 2 {
        r.b
    } else {
        Vector2Int { x: r.a.x, y: r.b.y }
    }
}

/// The Manhattan distance of corner pair `k` of 16 (row-major over the two
/// rooms' corners).
pub open spec fn corner_pair_dist(ra: Room, rb: Room, k: int) -> int {
    manhattan_dist(corner(ra, k / 4), corner(rb, k % 4))
}

/// The minimum corner-pair distance among the first `k` pairs.
pub open spec fn room_dist_upto(ra: Room, rb: Room, k: int) -> int
    decreases k,
{
    if k <= 1 {
        corner_pair_dist(ra, rb, 0)
    } else {
        imin(room_dist_upto(ra, rb, k - 1), corner_pair_dist(ra, rb, k - 1))
    }
}

/// The minimum corner-to-corner Manhattan distance between two rooms.
pub open spec fn room_dist(ra: Room, rb: Room) -> int {
    room_dist_upto(ra, rb, 16)
}

/// Computes `room_dist`: the smallest Manhattan distance over the sixteen
/// corner pairs.
fn room_dist_exec(ra: &Room, rb: &Room) -> (r: i32)
    requires
        room_in_world(*ra),
        room_in_world(*rb),
    ensures
        r == room_dist(*ra, *rb),
{
    let ca = ra.corners();
    let cb = rb.corners();
    let mut best: i32 = ca[0].manhattan(cb[0]);
    let mut k: usize = 1;
    while k < 16
        invariant
            1 <= k <= 16,
            room_in_world(*ra),
            room_in_world(*rb),
            ca@ == seq![ra.a, Vector2Int { x: ra.b.x, y: ra.a.y }, ra.b, Vector2Int { x: ra.a.x, y: ra.b.y }],
            cb@ == seq![rb.a, Vector2Int { x: rb.b.x, y: rb.a.y }, rb.b, Vector2Int { x: rb.a.x, y: rb.b.y }],
            best == room_dist_upto(*ra, *rb, k as int),
        decreases 16 - k,
    {
        proof {
            assert(ca@[k as int / 4] == corner(*ra, k as int / 4));
            assert(cb@[k as int % 4] == corner(*rb, k as int % 4));
            assert(in_world(corner(*ra, k as int / 4)));
            assert(in_world(corner(*rb, k as int % 4)));
        }
        let d = ca[k / 4].manhattan(cb[k % 4]);
        if d < best {
            best = d;
        }
        k = k + 1;
    }
    best
}

} // verus!
