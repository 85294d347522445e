//! Corridor tracing: turning two endpoints into an ordered run of tiles.
//!
//! Two variants exist: a deterministic elbow (`LShape`) and a randomized
//! walk biased toward the target (`Weighted`).  Both stay inside the
//! bounding rectangle of the endpoints and both leave the endpoints linked
//! through the emitted tiles under 4-directional adjacency.

use vstd::prelude::*;
use crate::vectors::{Vector2Int, in_world, abs_int, manhattan_dist};
use crate::random::RandomSource;

verus! {

/// Minimum of two mathematical integers.
pub open spec fn imin(a: int, b: int) -> int {
    if a <= b { a } else { b }
}

/// Maximum of two mathematical integers.
pub open spec fn imax(a: int, b: int) -> int {
    if a >= b { a } else { b }
}

/// The tile at mathematical coordinates `(x, y)`.
pub open spec fn tile(x: int, y: int) -> Vector2Int {
    Vector2Int { x: x as i32, y: y as i32 }
}

/// `p` lies in the closed bounding rectangle spanned by `a` and `b`.
pub open spec fn in_rect(p: Vector2Int, a: Vector2Int, b: Vector2Int) -> bool {
    &&& imin(a.x as int, b.x as int) <= p.x <= imax(a.x as int, b.x as int)
    &&& imin(a.y as int, b.y as int) <= p.y <= imax(a.y as int, b.y as int)
}

/// The two tiles are equal or 4-adjacent.
pub open spec fn step_ok(p: Vector2Int, q: Vector2Int) -> bool {
    manhattan_dist(p, q) <= 1
}

/// Consecutive elements are equal or 4-adjacent.
pub open spec fn is_chain(c: Seq<Vector2Int>) -> bool {
    forall|i: int| 0 <= i < c.len() - 1 ==> #[trigger] step_ok(c[i], c[i + 1])
}

/// `p` and `q` are joined by a chain of tiles drawn from `s`.
pub open spec fn linked(s: Set<Vector2Int>, p: Vector2Int, q: Vector2Int) -> bool {
    exists|c: Seq<Vector2Int>|
        #[trigger] is_chain(c) && c.len() > 0 && c.first() == p && c.last() == q
            && (forall|i: int| 0 <= i < c.len() ==> s.contains(c[i]))
}

/// What every corridor guarantees: its tiles stay inside the endpoints'
/// bounding rectangle, and the endpoints are linked through the corridor
/// tiles together with the endpoints themselves.
pub open spec fn corridor(path: Seq<Vector2Int>, a: Vector2Int, b: Vector2Int) -> bool {
    &&& forall|i: int| 0 <= i < path.len() ==> in_rect(path[i], a, b)
    &&& linked(path.to_set().insert(a).insert(b), a, b)
}

/// Horizontal run at row `y`, from `x0` up to `x1` inclusive (empty when
/// `x1 < x0`).
pub open spec fn h_run(y: i32, x0: int, x1: int) -> Seq<Vector2Int> {
    Seq::new(if x1 < x0 { 0 } else { (x1 - x0 + 1) as nat }, |i: int| Vector2Int { x: (x0 + i) as i32, y: y })
}

/// Vertical run at column `x`, from `y0` up to `y1` inclusive (empty when
/// `y1 < y0`).
pub open spec fn v_run(x: i32, y0: int, y1: int) -> Seq<Vector2Int> {
    Seq::new(if y1 < y0 { 0 } else { (y1 - y0 + 1) as nat }, |i: int| Vector2Int { x: x, y: (y0 + i) as i32 })
}

/// The row used by the elbow's horizontal leg.
pub open spec fn l_shape_hor_y(a: Vector2Int, b: Vector2Int) -> int {
    if b.x - a.x > b.y - a.y { a.y as int } else { b.y as int }
}

/// The column used by the elbow's vertical leg.
pub open spec fn l_shape_ver_x(a: Vector2Int, b: Vector2Int) -> int {
    if b.x - a.x > b.y - a.y { b.x as int } else { a.x as int }
}

/// The exact tile run of the deterministic elbow corridor: the full
/// vertical leg, then the horizontal leg with the elbow tile left out so
/// that no tile repeats.
pub open spec fn l_shape_path(a: Vector2Int, b: Vector2Int) -> Seq<Vector2Int> {
    let hor_y = l_shape_hor_y(a, b);
    let ver_x = l_shape_ver_x(a, b);
    let min_x = imin(a.x as int, b.x as int);
    let max_x = imax(a.x as int, b.x as int);
    let min_y = imin(a.y as int, b.y as int);
    let max_y = imax(a.y as int, b.y as int);
    v_run(ver_x as i32, min_y, max_y)
        + if ver_x == min_x { h_run(hor_y as i32, min_x + 1, max_x) } else { h_run(hor_y as i32, min_x, max_x - 1) }
}

/// What the randomized walk guarantees: it starts at `a`, every step is
/// 4-adjacent and strictly approaches `b`, it stays in the endpoints'
/// rectangle, and it stops one step short of `b` (the target tile itself is
/// not emitted).
pub open spec fn walk_path(path: Seq<Vector2Int>, a: Vector2Int, b: Vector2Int) -> bool {
    &&& path.len() == manhattan_dist(a, b)
    &&& path.len() > 0 ==> path[0] == a
    &&& forall|i: int| 0 <= i < path.len() ==> manhattan_dist(#[trigger] path[i], b) == path.len() - i
    &&& forall|i: int| 0 <= i < path.len() - 1 ==> manhattan_dist(#[trigger] path[i], path[i + 1]) == 1
    &&& forall|i: int| 0 <= i < path.len() ==> in_rect(#[trigger] path[i], a, b)
}

/// Selects how corridors are traced.
pub enum Tunneler {
    LShape,
    Weighted,
}

/// What a tunneler variant promises of the run it emits.
pub open spec fn tunnel_post(t: Tunneler, a: Vector2Int, b: Vector2Int, path: Seq<Vector2Int>) -> bool {
    match t {
        Tunneler::LShape => path == l_shape_path(a, b),
        Tunneler::Weighted => walk_path(path, a, b),
    }
}

impl Tunneler {
    /// Traces a corridor from `a` to `b` with this variant.
    pub fn connect(&self, a: Vector2Int, b: Vector2Int, rng: &mut RandomSource) -> (r: Vec<Vector2Int>)
        requires
            in_world(a),
            in_world(b),
        ensures
            tunnel_post(*self, a, b, r@),
            corridor(r@, a, b),
    {
        match self {
            Tunneler::LShape => {
                let r = l_shape_connector(a, b);
                proof { lemma_l_shape_corridor(a, b); }
                r
            },
            Tunneler::Weighted => {
                let r = weighted_connector(a, b, rng);
                proof { lemma_walk_corridor(r@, a, b); }
                r
            },
        }
    }
}

/// Deterministic elbow corridor: the vertical leg at the chosen column over
/// the full span of rows, then the horizontal leg at the chosen row over
/// the remaining columns.  Always `|dx| + |dy| + 1` tiles; a single tile
/// when `a == b`.
pub fn l_shape_connector(a: Vector2Int, b: Vector2Int) -> (r: Vec<Vector2Int>)
    requires
        in_world(a),
        in_world(b),
    ensures
        r@ == l_shape_path(a, b),
{
    let d = b.sub(a);
    let (hor_y, ver_x): (i32, i32) = if d.x > d.y { (a.y, b.x) } else { (b.y, a.x) };
    let min_x: i32 = if a.x <= b.x { a.x } else { b.x };
    let max_x: i32 = if a.x >= b.x { a.x } else { b.x };
    let min_y: i32 = if a.y <= b.y { a.y } else { b.y };
    let max_y: i32 = if a.y >= b.y { a.y } else { b.y };

    let mut r: Vec<Vector2Int> = Vec::new();
    let mut y: i32 = min_y;
    while y <= max_y
        invariant
            min_y <= y <= max_y + 1,
            max_y < i32::MAX,
            r@ == v_run(ver_x, min_y as int, y - 1),
        decreases max_y + 1 - y,
    {
        r.push(Vector2Int { x: ver_x, y });
        proof {
            assert(r@ =~= v_run(ver_x, min_y as int, y as int));
        }
        y = y + 1;
    }
    assert(r@ == v_run(ver_x, min_y as int, max_y as int));

    let x_lo: i32 = if ver_x == min_x { min_x + 1 } else { min_x };
    let x_hi: i32 = if ver_x == min_x { max_x } else { max_x - 1 };
    let ghost v_part = r@;
    let mut x: i32 = x_lo;
    while x <= x_hi
        invariant
            x_lo <= x <= x_hi + 1 || (x == x_lo && x_hi < x_lo),
            x_hi < i32::MAX,
            r@ == v_part + h_run(hor_y, x_lo as int, x - 1),
        decreases x_hi + 1 - x,
    {
        r.push(Vector2Int { x, y: hor_y });
        proof {
            assert(r@ =~= v_part + h_run(hor_y, x_lo as int, x as int));
        }
        x = x + 1;
    }
    proof {
        assert(r@ =~= l_shape_path(a, b));
    }
    r
}

/// Randomized corridor: starting at `a`, repeatedly steps one tile toward
/// `b` along an axis drawn with probability proportional to the remaining
/// distance on that axis, so an exhausted axis is never chosen.  Emits
/// exactly `|dx| + |dy|` tiles and excludes the target tile itself.
pub fn weighted_connector(a: Vector2Int, b: Vector2Int, rng: &mut RandomSource) -> (r: Vec<Vector2Int>)
    requires
        in_world(a),
        in_world(b),
    ensures
        walk_path(r@, a, b),
{
    let mut path: Vec<Vector2Int> = Vec::new();
    let mut cur = a;
    let ghost total = manhattan_dist(a, b);
    while cur.x != b.x || cur.y != b.y
        invariant
            in_world(a),
            in_world(b),
            in_rect(cur, a, b),
            manhattan_dist(cur, b) == total - path@.len(),
            path@.len() <= total,
            path@.len() > 0 ==> path@[0] == a,
            path@.len() == 0 ==> cur == a,
            forall|i: int| 0 <= i < path@.len() ==> manhattan_dist(#[trigger] path@[i], b) == total - i,
            forall|i: int| 0 <= i < path@.len() - 1 ==> manhattan_dist(#[trigger] path@[i], path@[i + 1]) == 1,
            forall|i: int| 0 <= i < path@.len() ==> in_rect(#[trigger] path@[i], a, b),
            path@.len() > 0 ==> manhattan_dist(path@[path@.len() - 1], cur) == 1,
        decreases manhattan_dist(cur, b),
    {
        let ghost prev_path = path@;
        path.push(cur);
        let dx: i32 = b.x - cur.x;
        let dy: i32 = b.y - cur.y;
        let wx: u32 = if dx >= 0 { dx as u32 } else { (-dx) as u32 };
        let wy: u32 = if dy >= 0 { dy as u32 } else { (-dy) as u32 };
        let axis = rng.weighted_pair(wx, wy);
        let step = if axis == 0 {
            Vector2Int { x: if dx > 0 { 1 } else { -1 }, y: 0 }
        } else {
            Vector2Int { x: 0, y: if dy > 0 { 1 } else { -1 } }
        };
        cur = cur.add(step);
    }
    proof {
        assert(manhattan_dist(cur, b) == 0);
        assert(path@.len() == total);
    }
    path
}

/// A straight run of tiles is a chain, and the walk's step conditions make
/// the emitted run plus the target a chain; from that the corridor
/// guarantee follows.
pub proof fn lemma_walk_corridor(path: Seq<Vector2Int>, a: Vector2Int, b: Vector2Int)
    requires
        walk_path(path, a, b),
    ensures
        corridor(path, a, b),
{
    let s = path.to_set().insert(a).insert(b);
    let c = path + seq![b];
    assert(c.len() > 0);
    assert(c.last() == b);
    if path.len() == 0 {
        assert(manhattan_dist(a, b) == 0);
        assert(a.x == b.x && a.y == b.y);
        assert(c.first() == b);
        assert(a == b);
        assert(forall|i: int| 0 <= i < c.len() ==> s.contains(c[i]));
        assert(is_chain(c));
        assert(linked(s, a, b));
    } else {
        assert(c.first() == path[0]);
        assert(c.first() == a);
        assert(forall|i: int| 0 <= i < path.len() ==> s.contains(#[trigger] c[i])) by {
            assert(forall|i: int| 0 <= i < path.len() ==> path.to_set().contains(#[trigger] path[i]));
        }
        assert(s.contains(c[c.len() - 1]));
        assert(manhattan_dist(path[path.len() - 1], b) == 1);
        assert forall|i: int| 0 <= i < c.len() - 1 implies #[trigger] step_ok(c[i], c[i + 1]) by {
            if i + 1 < path.len() {
                assert(c[i] == path[i]);
                assert(c[i + 1] == path[i + 1]);
            } else {
                assert(c[i] == path[path.len() - 1]);
                assert(c[i + 1] == b);
            }
        }
        assert(is_chain(c));
        assert(linked(s, a, b));
    }
}

/// The elbow corridor's tiles stay in the endpoints' rectangle and link the
/// endpoints: one can walk from `a` along the horizontal row to the elbow
/// column and then along the vertical column to `b` (or the other way
/// round), never leaving the emitted tiles.
pub proof fn lemma_l_shape_corridor(a: Vector2Int, b: Vector2Int)
    requires
        in_world(a),
        in_world(b),
    ensures
        corridor(l_shape_path(a, b), a, b),
{
    lemma_l_shape_tiles(a, b);
    let path = l_shape_path(a, b);
    let s = path.to_set().insert(a).insert(b);
    let hor_y = l_shape_hor_y(a, b);
    let ver_x = l_shape_ver_x(a, b);
    assert forall|y: int| imin(a.y as int, b.y as int) <= y <= imax(a.y as int, b.y as int)
        implies s.contains(#[trigger] tile(ver_x, y)) by {
        assert(path.to_set().contains(tile(ver_x, y)));
    }
    assert forall|x: int| imin(a.x as int, b.x as int) <= x <= imax(a.x as int, b.x as int)
        implies s.contains(#[trigger] tile(x, hor_y)) by {
        assert(path.to_set().contains(tile(x, hor_y)));
    }
    if b.x - a.x > b.y - a.y {
        lemma_row_then_col_linked(s, a, b);
    } else {
        lemma_col_then_row_linked(s, a, b);
    }
}

/// The elbow's tiles lie in the endpoints' rectangle, and the full chosen
/// column and the full chosen row are covered by the emitted tiles.
proof fn lemma_l_shape_tiles(a: Vector2Int, b: Vector2Int)
    requires
        in_world(a),
        in_world(b),
    ensures
        forall|i: int| 0 <= i < l_shape_path(a, b).len() ==> in_rect(#[trigger] l_shape_path(a, b)[i], a, b),
        forall|y: int| imin(a.y as int, b.y as int) <= y <= imax(a.y as int, b.y as int)
            ==> l_shape_path(a, b).to_set().contains(#[trigger] tile(l_shape_ver_x(a, b), y)),
        forall|x: int| imin(a.x as int, b.x as int) <= x <= imax(a.x as int, b.x as int)
            ==> l_shape_path(a, b).to_set().contains(#[trigger] tile(x, l_shape_hor_y(a, b))),
{
    let path = l_shape_path(a, b);
    let hor_y = l_shape_hor_y(a, b);
    let ver_x = l_shape_ver_x(a, b);
    let min_x = imin(a.x as int, b.x as int);
    let max_x = imax(a.x as int, b.x as int);
    let min_y = imin(a.y as int, b.y as int);
    let max_y = imax(a.y as int, b.y as int);
    let vlen = max_y - min_y + 1;

    assert forall|i: int| 0 <= i < path.len() implies in_rect(#[trigger] path[i], a, b) by {
        assert(min_y <= hor_y <= max_y);
        assert(min_x <= ver_x <= max_x);
        if i < vlen {
            assert(path[i] == tile(ver_x, min_y + i));
        } else if ver_x == min_x {
            assert(path[i] == tile(min_x + 1 + (i - vlen), hor_y));
        } else {
            assert(path[i] == tile(min_x + (i - vlen), hor_y));
        }
    }

    assert forall|y: int| min_y <= y <= max_y implies path.to_set().contains(#[trigger] tile(ver_x, y)) by {
        let i = y - min_y;
        assert(path[i] == tile(ver_x, y));
        assert(path.to_set().contains(path[i]));
    }
    assert forall|x: int| min_x <= x <= max_x implies path.to_set().contains(#[trigger] tile(x, hor_y)) by {
        if x == ver_x {
            assert(min_y <= hor_y <= max_y);
            let i = hor_y - min_y;
            assert(path[i] == tile(ver_x, hor_y));
            assert(path.to_set().contains(path[i]));
        } else if ver_x == min_x {
            let i = vlen + (x - min_x - 1);
            assert(path[i] == tile(x, hor_y));
            assert(path.to_set().contains(path[i]));
        } else {
            let i = vlen + (x - min_x);
            assert(path[i] == tile(x, hor_y));
            assert(path.to_set().contains(path[i]));
        }
    }
}

/// A single tile of the set links to itself.
proof fn lemma_linked_refl(s: Set<Vector2Int>, p: Vector2Int)
    requires
        s.contains(p),
    ensures
        linked(s, p, p),
{
    let c = seq![p];
    assert(is_chain(c));
    assert(c.first() == p);
    assert(forall|i: int| 0 <= i < c.len() ==> s.contains(c[i]));
}

/// A link can be extended by one adjacent (or equal) tile of the set.
proof fn lemma_linked_step(s: Set<Vector2Int>, p: Vector2Int, q: Vector2Int, r: Vector2Int)
    requires
        linked(s, p, q),
        s.contains(r),
        step_ok(q, r),
    ensures
        linked(s, p, r),
{
    let c = choose|c: Seq<Vector2Int>|
        #[trigger] is_chain(c) && c.len() > 0 && c.first() == p && c.last() == q
            && (forall|i: int| 0 <= i < c.len() ==> s.contains(c[i]));
    let c2 = c + seq![r];
    assert forall|i: int| 0 <= i < c2.len() - 1 implies #[trigger] step_ok(c2[i], c2[i + 1]) by {
        if i + 1 < c.len() {
            assert(c2[i] == c[i]);
            assert(c2[i + 1] == c[i + 1]);
            assert(step_ok(c[i], c[i + 1]));
        } else {
            assert(c2[i] == c.last());
            assert(c2[i + 1] == r);
            assert(step_ok(q, r));
        }
    }
    assert(is_chain(c2));
    assert(c2.first() == p);
    assert(c2.last() == r);
    assert forall|i: int| 0 <= i < c2.len() implies s.contains(#[trigger] c2[i]) by {
        if i < c.len() {
            assert(c2[i] == c[i]);
        } else {
            assert(c2[i] == r);
        }
    }
}

/// Two links sharing an endpoint compose.
proof fn lemma_linked_trans(s: Set<Vector2Int>, p: Vector2Int, q: Vector2Int, r: Vector2Int)
    requires
        linked(s, p, q),
        linked(s, q, r),
    ensures
        linked(s, p, r),
{
    let c1 = choose|c: Seq<Vector2Int>|
        #[trigger] is_chain(c) && c.len() > 0 && c.first() == p && c.last() == q
            && (forall|i: int| 0 <= i < c.len() ==> s.contains(c[i]));
    let c2 = choose|c: Seq<Vector2Int>|
        #[trigger] is_chain(c) && c.len() > 0 && c.first() == q && c.last() == r
            && (forall|i: int| 0 <= i < c.len() ==> s.contains(c[i]));
    let c = c1 + c2;
    assert forall|i: int| 0 <= i < c.len() - 1 implies #[trigger] step_ok(c[i], c[i + 1]) by {
        if i + 1 < c1.len() {
            assert(c[i] == c1[i]);
            assert(c[i + 1] == c1[i + 1]);
            assert(step_ok(c1[i], c1[i + 1]));
        } else if i + 1 == c1.len() {
            assert(c[i] == c1.last());
            assert(c[i + 1] == c2.first());
            assert(step_ok(q, q));
        } else {
            assert(c[i] == c2[i - c1.len()]);
            assert(c[i + 1] == c2[i + 1 - c1.len()]);
            assert(step_ok(c2[i - c1.len()], c2[i - c1.len() + 1]));
        }
    }
    assert(is_chain(c));
    assert(c.first() == p);
    assert(c.last() == r);
    assert forall|i: int| 0 <= i < c.len() implies s.contains(#[trigger] c[i]) by {
        if i < c1.len() {
            assert(c[i] == c1[i]);
        } else {
            assert(c[i] == c2[i - c1.len()]);
        }
    }
}

/// If the set holds every tile of the row `y` between `x0` and `x1`, its
/// two ends are linked.
proof fn lemma_row_linked(s: Set<Vector2Int>, y: int, x0: int, x1: int)
    requires
        forall|x: int| imin(x0, x1) <= x <= imax(x0, x1) ==> s.contains(#[trigger] tile(x, y)),
        -(0x4000_0000int) <= y <= 0x4000_0000int,
        -(0x4000_0000int) <= x0 <= 0x4000_0000int,
        -(0x4000_0000int) <= x1 <= 0x4000_0000int,
    ensures
        linked(s, tile(x0, y), tile(x1, y)),
    decreases abs_int(x1 - x0),
{
    if x0 == x1 {
        lemma_linked_refl(s, tile(x0, y));
    } else {
        let x1p = if x1 > x0 { x1 - 1 } else { x1 + 1 };
        lemma_row_linked(s, y, x0, x1p);
        assert(step_ok(tile(x1p, y), tile(x1, y)));
        lemma_linked_step(s, tile(x0, y), tile(x1p, y), tile(x1, y));
    }
}

/// If the set holds every tile of the column `x` between `y0` and `y1`, its
/// two ends are linked.
proof fn lemma_col_linked(s: Set<Vector2Int>, x: int, y0: int, y1: int)
    requires
        forall|y: int| imin(y0, y1) <= y <= imax(y0, y1) ==> s.contains(#[trigger] tile(x, y)),
        -(0x4000_0000int) <= x <= 0x4000_0000int,
        -(0x4000_0000int) <= y0 <= 0x4000_0000int,
        -(0x4000_0000int) <= y1 <= 0x4000_0000int,
    ensures
        linked(s, tile(x, y0), tile(x, y1)),
    decreases abs_int(y1 - y0),
{
    if y0 == y1 {
        lemma_linked_refl(s, tile(x, y0));
    } else {
        let y1p = if y1 > y0 { y1 - 1 } else { y1 + 1 };
        lemma_col_linked(s, x, y0, y1p);
        assert(step_ok(tile(x, y1p), tile(x, y1)));
        lemma_linked_step(s, tile(x, y0), tile(x, y1p), tile(x, y1));
    }
}

/// If a set covers the whole row at `a.y` and the whole column at `b.x`
/// between the two endpoints, the endpoints are linked through it: walk the
/// row from `a` to the corner, then the column to `b`.
proof fn lemma_row_then_col_linked(s: Set<Vector2Int>, a: Vector2Int, b: Vector2Int)
    requires
        in_world(a),
        in_world(b),
        forall|x: int| imin(a.x as int, b.x as int) <= x <= imax(a.x as int, b.x as int)
            ==> s.contains(#[trigger] tile(x, a.y as int)),
        forall|y: int| imin(a.y as int, b.y as int) <= y <= imax(a.y as int, b.y as int)
            ==> s.contains(#[trigger] tile(b.x as int, y)),
    ensures
        linked(s, a, b),
{
    lemma_row_linked(s, a.y as int, a.x as int, b.x as int);
    lemma_col_linked(s, b.x as int, a.y as int, b.y as int);
    assert(tile(a.x as int, a.y as int) == a);
    assert(tile(b.x as int, b.y as int) == b);
    lemma_linked_trans(s, a, tile(b.x as int, a.y as int), b);
}

/// If a set covers the whole column at `a.x` and the whole row at `b.y`
/// between the two endpoints, the endpoints are linked through it: walk the
/// column from `a` to the corner, then the row to `b`.
proof fn lemma_col_then_row_linked(s: Set<Vector2Int>, a: Vector2Int, b: Vector2Int)
    requires
        in_world(a),
        in_world(b),
        forall|y: int| imin(a.y as int, b.y as int) <= y <= imax(a.y as int, b.y as int)
            ==> s.contains(#[trigger] tile(a.x as int, y)),
        forall|x: int| imin(a.x as int, b.x as int) <= x <= imax(a.x as int, b.x as int)
            ==> s.contains(#[trigger] tile(x, b.y as int)),
    ensures
        linked(s, a, b),
{
    lemma_col_linked(s, a.x as int, a.y as int, b.y as int);
    lemma_row_linked(s, b.y as int, a.x as int, b.x as int);
    assert(tile(a.x as int, a.y as int) == a);
    assert(tile(b.x as int, b.y as int) == b);
    lemma_linked_trans(s, a, tile(a.x as int, b.y as int), b);
}

/// The elbow corridor's length is always `|dx| + |dy| + 1`; in particular
/// it is a single tile when the endpoints coincide.
pub proof fn lemma_l_shape_len(a: Vector2Int, b: Vector2Int)
    ensures
        l_shape_path(a, b).len() == abs_int(b.x - a.x) + abs_int(b.y - a.y) + 1,
{
}

} // verus!
