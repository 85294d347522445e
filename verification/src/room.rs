//! Axis-aligned rectangular rooms: the geometric primitive of the map.
//!
//! A room is stored by its two corners `a` (minimum) and `b` (maximum);
//! construction normalizes any pair of corners into that form, and nothing
//! afterwards breaks it except whole-area translation.

use vstd::prelude::*;
use crate::vectors::{Vector2Int, in_world, manhattan_dist};
use crate::random::RandomSource;
use crate::tunnels::{Tunneler, tunnel_post, corridor, imin, imax};

verus! {

/// An axis-aligned rectangle given by its minimum corner `a` and maximum
/// corner `b`, both inclusive.
#[derive(Clone, Copy, Debug, PartialEq, Eq, Structural)]
pub struct Room {
    pub a: Vector2Int,
    pub b: Vector2Int,
}

/// A corner pair in normalized form: `a` is the minimum corner.
pub open spec fn room_wf(r: Room) -> bool {
    r.a.x <= r.b.x && r.a.y <= r.b.y
}

/// Both corners lie within the world bound.
pub open spec fn room_in_world(r: Room) -> bool {
    in_world(r.a) && in_world(r.b)
}

/// `p` is one of the tiles the room covers (inclusive bounds on both axes).
pub open spec fn in_room(r: Room, p: Vector2Int) -> bool {
    r.a.x <= p.x <= r.b.x && r.a.y <= p.y <= r.b.y
}

/// The set of tiles the room covers.
pub open spec fn room_tiles(r: Room) -> Set<Vector2Int> {
    Set::new(|p: Vector2Int| in_room(r, p))
}

/// The two rooms' spans overlap on both axes once each room is inflated by
/// `border` on every side.
pub open spec fn rooms_intersect(r: Room, other: Room, border: int) -> bool {
    !(other.a.x > r.b.x + border || other.b.x < r.a.x - border
        || other.a.y > r.b.y + border || other.b.y < r.a.y - border)
}

/// The inflation used by an intersection test: the given border, or 0.
pub open spec fn border_val(border: Option<i32>) -> int {
    match border {
        Some(v) => v as int,
        None => 0,
    }
}

/// Halving with truncation toward zero, as Rust's `/ 2` computes it.
pub open spec fn half_toward_zero(v: int) -> int {
    if v >= 0 {
        v / 2
    } else {
        -((-v) / 2)
    }
}

/// The paths a tunneler may emit between some tile of `ra` and some tile of
/// `rb`: exactly the tunneler's guarantee, for endpoints inside the rooms.
pub open spec fn joins_rooms(t: Tunneler, path: Seq<Vector2Int>, ra: Room, rb: Room) -> bool {
    exists|pa: Vector2Int, pb: Vector2Int|
        in_room(ra, pa) && in_room(rb, pb) && #[trigger] tunnel_post(t, pa, pb, path)
}

impl Room {
    /// Builds the room spanned by any two corners, normalizing them so that
    /// `a` holds the componentwise minimum and `b` the maximum.  Any two
    /// corners are valid, including a degenerate single tile.
    pub fn new(a: Vector2Int, b: Vector2Int) -> (r: Room)
        ensures
            r.a.x == imin(a.x as int, b.x as int),
            r.a.y == imin(a.y as int, b.y as int),
            r.b.x == imax(a.x as int, b.x as int),
            r.b.y == imax(a.y as int, b.y as int),
            room_wf(r),
    {
        Room { a: a.min(b), b: a.max(b) }
    }

    /// The four corner points, in the order minimum, x-maximal, maximum,
    /// y-maximal.
    pub fn corners(&self) -> (r: [Vector2Int; 4])
        ensures
            r@ == seq![
                self.a,
                Vector2Int { x: self.b.x, y: self.a.y },
                self.b,
                Vector2Int { x: self.a.x, y: self.b.y },
            ],
    {
        let r = [
            Vector2Int::new(self.a.x, self.a.y),
            Vector2Int::new(self.b.x, self.a.y),
            Vector2Int::new(self.b.x, self.b.y),
            Vector2Int::new(self.a.x, self.b.y),
        ];
        proof {
            assert(r@ =~= seq![
                self.a,
                Vector2Int { x: self.b.x, y: self.a.y },
                self.b,
                Vector2Int { x: self.a.x, y: self.b.y },
            ]);
        }
        r
    }

    /// A point drawn uniformly on each axis over the closed interval the
    /// room covers; repeated calls need not be distinct.
    pub fn random_point(&self, rng: &mut RandomSource) -> (r: Vector2Int)
        requires
            room_wf(*self),
        ensures
            in_room(*self, r),
    {
        let x = rng.range_i32(self.a.x, self.b.x);
        let y = rng.range_i32(self.a.y, self.b.y);
        Vector2Int::new(x, y)
    }

    /// The integer midpoint of the room, the corner sum halved with
    /// truncation toward zero; always one of the room's own tiles.
    pub fn centre(&self) -> (r: Vector2Int)
        requires
            room_wf(*self),
            room_in_world(*self),
        ensures
            r.x == half_toward_zero(self.a.x + self.b.x),
            r.y == half_toward_zero(self.a.y + self.b.y),
            in_room(*self, r),
    {
        let sx: i32 = self.a.x + self.b.x;
        let sy: i32 = self.a.y + self.b.y;
        let x: i32 = if sx >= 0 { ((sx as u32) / 2) as i32 } else { 0 - (((0 - sx) as u32 / 2) as i32) };
        let y: i32 = if sy >= 0 { ((sy as u32) / 2) as i32 } else { 0 - (((0 - sy) as u32 / 2) as i32) };
        proof {
            assert(2 * (sx as int / 2) <= sx as int) by (nonlinear_arith);
            assert(2 * (sy as int / 2) <= sy as int) by (nonlinear_arith);
            assert(2 * ((-(sx as int)) / 2) <= -(sx as int)) by (nonlinear_arith);
            assert(2 * ((-(sy as int)) / 2) <= -(sy as int)) by (nonlinear_arith);
        }
        Vector2Int::new(x, y)
    }

    /// Whether the two rooms' spans overlap when each is inflated by
    /// `border` (0 when absent) on every side.
    pub fn intersects(&self, other: &Room, border: Option<i32>) -> (r: bool)
        requires
            room_in_world(*self),
            room_in_world(*other),
            -(crate::vectors::WORLD_LIMIT as int) <= border_val(border) <= crate::vectors::WORLD_LIMIT as int,
        ensures
            r == rooms_intersect(*self, *other, border_val(border)),
    {
        let b: i32 = match border {
            Some(v) => v,
            None => 0,
        };
        !(other.a.x > self.b.x + b || other.b.x < self.a.x - b
            || other.a.y > self.b.y + b || other.b.y < self.a.y - b)
    }

    /// Draws a corridor between a random interior point of each room with
    /// the given tunneler.
    pub fn join(&self, other: &Room, tunneler: &Tunneler, rng: &mut RandomSource) -> (r: Vec<Vector2Int>)
        requires
            room_wf(*self),
            room_wf(*other),
            room_in_world(*self),
            room_in_world(*other),
        ensures
            joins_rooms(*tunneler, r@, *self, *other),
    {
        let va = self.random_point(rng);
        let vb = other.random_point(rng);
        let path = tunneler.connect(va, vb, rng);
        proof {
            assert(in_room(*self, va) && in_room(*other, vb) && tunnel_post(*tunneler, va, vb, path@));
        }
        path
    }

    /// Enumerates every tile of the room, row by row: exactly the covered
    /// set, with no tile repeated, so the count is width times height.
    pub fn get_tiles(&self) -> (r: Vec<Vector2Int>)
        requires
            room_wf(*self),
            room_in_world(*self),
        ensures
            r@.to_set() == room_tiles(*self),
            forall|i: int, j: int| 0 <= i < j < r@.len() ==> r@[i] != r@[j],
            r@.len() == (self.b.x - self.a.x + 1) * (self.b.y - self.a.y + 1),
    {
        let w: i32 = self.b.x - self.a.x + 1;
        let mut r: Vec<Vector2Int> = Vec::new();
        let mut y: i32 = self.a.y;
        while y <= self.b.y
            invariant
                room_wf(*self),
                room_in_world(*self),
                self.a.y <= y <= self.b.y + 1,
                w == self.b.x - self.a.x + 1,
                r@.len() == (y - self.a.y) * w,
                forall|i: int| 0 <= i < r@.len()
                    ==> in_room(*self, #[trigger] r@[i]) && r@[i].y < y,
                forall|p: Vector2Int| in_room(*self, p) && p.y < y ==> r@.contains(p),
                forall|i: int, j: int| 0 <= i < j < r@.len() ==> r@[i] != r@[j],
            decreases self.b.y + 1 - y,
        {
            let ghost row_start = r@;
            let mut x: i32 = self.a.x;
            while x <= self.b.x
                invariant
                    room_wf(*self),
                    room_in_world(*self),
                    self.a.x <= x <= self.b.x + 1,
                    self.a.y <= y <= self.b.y,
                    r@.len() == row_start.len() + (x - self.a.x),
                    forall|i: int| 0 <= i < row_start.len() ==> r@[i] == row_start[i],
                    forall|i: int| 0 <= i < row_start.len()
                        ==> in_room(*self, #[trigger] r@[i]) && r@[i].y < y,
                    forall|i: int| row_start.len() <= i < r@.len()
                        ==> (#[trigger] r@[i]).y == y && self.a.x <= r@[i].x < x
                            && in_room(*self, r@[i]),
                    forall|p: Vector2Int| in_room(*self, p) && p.y < y ==> r@.contains(p),
                    forall|p: Vector2Int| in_room(*self, p) && p.y == y && p.x < x
                        ==> r@.contains(p),
                    forall|i: int, j: int| 0 <= i < j < r@.len() ==> r@[i] != r@[j],
                decreases self.b.x + 1 - x,
            {
                let ghost prev = r@;
                r.push(Vector2Int { x, y });
                proof {
                    assert forall|p: Vector2Int| prev.contains(p) implies r@.contains(p) by {
                        let i = choose|i: int| 0 <= i < prev.len() && prev[i] == p;
                        assert(r@[i] == p);
                    }
                    assert(r@[r@.len() - 1] == Vector2Int { x, y });
                    assert(r@.contains(r@[r@.len() - 1]));
                    assert forall|p: Vector2Int| in_room(*self, p) && p.y == y && p.x < x + 1
                        implies r@.contains(p) by {
                        if p.x < x {
                            assert(prev.contains(p));
                        } else {
                            assert(p == r@[r@.len() - 1]);
                        }
                    }
                }
                x = x + 1;
            }
            proof {
                assert(r@.len() == row_start.len() + w);
                assert((y - self.a.y) * w + w == (y + 1 - self.a.y) * w) by (nonlinear_arith);
            }
            y = y + 1;
        }
        proof {
            assert(r@.len() == (self.b.y + 1 - self.a.y) * w);
            assert(w == self.b.x - self.a.x + 1);
            assert((self.b.y + 1 - self.a.y) * (self.b.x - self.a.x + 1)
                == (self.b.x - self.a.x + 1) * (self.b.y - self.a.y + 1)) by (nonlinear_arith);
            assert forall|p: Vector2Int| r@.to_set().contains(p)
                implies room_tiles(*self).contains(p) by {
                let i = choose|i: int| 0 <= i < r@.len() && r@[i] == p;
                assert(in_room(*self, r@[i]));
            }
            assert forall|p: Vector2Int| room_tiles(*self).contains(p)
                implies r@.to_set().contains(p) by {
                assert(in_room(*self, p));
                assert(p.y < y);
                assert(r@.contains(p));
                let i = choose|i: int| 0 <= i < r@.len() && r@[i] == p;
                assert(r@.to_set().contains(r@[i]));
            }
            assert(r@.to_set() =~= room_tiles(*self));
        }
        r
    }
}

/// Rooms that overlap when both are inflated by a non-negative border share
/// a tile once the border is zero; conversely, rooms that do not intersect
/// at border 0 cover disjoint tile sets.
pub proof fn lemma_intersect_tiles(ra: Room, rb: Room)
    requires
        room_wf(ra),
        room_wf(rb),
    ensures
        rooms_intersect(ra, rb, 0) <==> exists|p: Vector2Int|
            #[trigger] in_room(ra, p) && in_room(rb, p),
        !rooms_intersect(ra, rb, 0) ==> room_tiles(ra).disjoint(room_tiles(rb)),
{
    if rooms_intersect(ra, rb, 0) {
        let p = Vector2Int {
            x: if ra.a.x >= rb.a.x { ra.a.x } else { rb.a.x },
            y: if ra.a.y >= rb.a.y { ra.a.y } else { rb.a.y },
        };
        assert(in_room(ra, p) && in_room(rb, p));
    }
    if !rooms_intersect(ra, rb, 0) {
        assert forall|p: Vector2Int| room_tiles(ra).contains(p) implies !room_tiles(rb).contains(p) by {
            assert(in_room(ra, p));
        }
        assert(room_tiles(ra).disjoint(room_tiles(rb)));
    }
}

/// A corridor joining two rooms that do not even touch is never empty: its
/// endpoints differ, so a weighted walk emits at least one tile, and an
/// elbow path is never empty anyway.
pub proof fn lemma_disjoint_join_nonempty(t: Tunneler, path: Seq<Vector2Int>, ra: Room, rb: Room)
    requires
        room_wf(ra),
        room_wf(rb),
        joins_rooms(t, path, ra, rb),
        !rooms_intersect(ra, rb, 0),
    ensures
        path.len() >= 1,
{
    let (pa, pb) = choose|pa: Vector2Int, pb: Vector2Int|
        in_room(ra, pa) && in_room(rb, pb) && #[trigger] tunnel_post(t, pa, pb, path);
    lemma_intersect_tiles(ra, rb);
    assert(room_tiles(ra).contains(pa));
    assert(!room_tiles(rb).contains(pa));
    assert(pa != pb);
    match t {
        Tunneler::LShape => {
            crate::tunnels::lemma_l_shape_len(pa, pb);
        },
        Tunneler::Weighted => {
            assert(manhattan_dist(pa, pb) >= 1);
        },
    }
}

} // verus!
