//! The top-level map: a list of areas assigned round-robin to grid rows,
//! packed into non-overlapping grid cells, flattened into one tile set and
//! stitched together with corridors between grid-adjacent areas.

use vstd::prelude::*;
use crate::vectors::{Vector2Int, WORLD_LIMIT};
use crate::random::RandomSource;
use crate::room::{Room, in_room, joins_rooms};
use crate::generator::{rooms_ok, params_ok, expected_rooms};
use crate::area::{Area, area_wf, area_generated, min_ax, min_ay, max_bx, max_by};

verus! {

/// The gap kept between neighboring grid cells.
pub const GRID_SPACING: i32 = 2;

/// The tiles covered by one area: its rooms' tiles and its corridors'
/// tiles.
pub open spec fn area_tiles(a: Area) -> Set<Vector2Int> {
    Set::new(|p: Vector2Int|
        (exists|i: int| 0 <= i < a.rooms@.len() && in_room(#[trigger] a.rooms@[i], p))
            || (exists|k: int, t: int| 0 <= k < a.paths@.len() && 0 <= t < a.paths@[k]@.len()
                && #[trigger] a.paths@[k]@[t] == p))
}

/// The union of all areas' tiles.
pub open spec fn all_area_tiles(areas: Seq<Area>) -> Set<Vector2Int> {
    Set::new(|p: Vector2Int| exists|i: int| 0 <= i < areas.len() && (#[trigger] area_tiles(areas[i])).contains(p))
}

/// The two areas' room bounding boxes are separated on some axis.
pub open spec fn bbox_disjoint(a1: Area, a2: Area) -> bool {
    ||| max_bx(a1.rooms@) < min_ax(a2.rooms@)
    ||| max_bx(a2.rooms@) < min_ax(a1.rooms@)
    ||| max_by(a1.rooms@) < min_ay(a2.rooms@)
    ||| max_by(a2.rooms@) < min_ay(a1.rooms@)
}

/// The union of all the listed corridors' tiles.
pub open spec fn joins_tiles(joins: Seq<Seq<Vector2Int>>) -> Set<Vector2Int> {
    Set::new(|p: Vector2Int| exists|k: int, t: int|
        0 <= k < joins.len() && 0 <= t < joins[k].len() && #[trigger] joins[k][t] == p)
}

/// Area `a1` sits directly right of, or directly below, area `a2` in the
/// round-robin grid.
pub open spec fn grid_adjacent(a1: int, a2: int, rc: int) -> bool {
    a1 - a2 == rc || (a1 - a2 == 1 && a1 % rc != 0)
}

/// The path joins a room of area `a1` to a room of area `a2`, drawn by
/// area `a1`'s tunneler.
pub open spec fn join_between(areas: Seq<Area>, a1: int, a2: int, path: Seq<Vector2Int>) -> bool {
    exists|i: int, j: int|
        0 <= i < areas[a1].rooms@.len() && 0 <= j < areas[a2].rooms@.len()
            && #[trigger] joins_rooms(areas[a1].tunneler, path, areas[a1].rooms@[i], areas[a2].rooms@[j])
}

/// The path joins the rooms of some grid-adjacent pair of areas.
pub open spec fn adjacent_join(areas: Seq<Area>, rc: int, path: Seq<Vector2Int>) -> bool {
    exists|a1: int, a2: int|
        0 <= a2 < a1 < areas.len() && grid_adjacent(a1, a2, rc)
            && #[trigger] join_between(areas, a1, a2, path)
}

/// Every listed corridor connects some grid-adjacent pair of areas.
pub open spec fn joins_ok(areas: Seq<Area>, rc: int, joins: Seq<Seq<Vector2Int>>) -> bool {
    forall|k: int| 0 <= k < joins.len() ==> adjacent_join(areas, rc, #[trigger] joins[k])
}

/// Some listed corridor joins areas `a1` and `a2`.
pub open spec fn adjacency_covered(areas: Seq<Area>, a1: int, a2: int, joins: Seq<Seq<Vector2Int>>) -> bool {
    exists|k: int| 0 <= k < joins.len() && #[trigger] join_between(areas, a1, a2, joins[k])
}

/// Every grid-adjacent pair of areas has a corridor in the list: no
/// adjacency is skipped.
pub open spec fn all_adjacencies_joined(areas: Seq<Area>, rc: int, joins: Seq<Seq<Vector2Int>>) -> bool {
    forall|a1: int, a2: int|
        0 <= a2 < a1 < areas.len() && #[trigger] grid_adjacent(a1, a2, rc)
            ==> adjacency_covered(areas, a1, a2, joins)
}

/// A corridor list only grows: whatever pair it covered, it still covers
/// after one more corridor is appended.
proof fn lemma_covered_push(areas: Seq<Area>, a1: int, a2: int, joins: Seq<Seq<Vector2Int>>, path: Seq<Vector2Int>)
    requires
        adjacency_covered(areas, a1, a2, joins),
    ensures
        adjacency_covered(areas, a1, a2, joins.push(path)),
{
    let k = choose|k: int| 0 <= k < joins.len() && #[trigger] join_between(areas, a1, a2, joins[k]);
    assert(joins.push(path)[k] == joins[k]);
    assert(join_between(areas, a1, a2, joins.push(path)[k]));
}

/// Recording one corridor between a grid-adjacent pair keeps every listed
/// corridor adjacency-respecting, covers that pair, and keeps every
/// already-covered pair covered.
proof fn lemma_record_join(areas: Seq<Area>, rc: int, joins: Seq<Seq<Vector2Int>>, path: Seq<Vector2Int>, a1: int, a2: int)
    requires
        joins_ok(areas, rc, joins),
        0 <= a2 < a1 < areas.len(),
        grid_adjacent(a1, a2, rc),
        join_between(areas, a1, a2, path),
    ensures
        joins_ok(areas, rc, joins.push(path)),
        adjacency_covered(areas, a1, a2, joins.push(path)),
        forall|b1: int, b2: int| adjacency_covered(areas, b1, b2, joins)
            ==> #[trigger] adjacency_covered(areas, b1, b2, joins.push(path)),
{
    let jp = joins.push(path);
    assert(jp[jp.len() - 1] == path);
    assert(join_between(areas, a1, a2, jp[jp.len() - 1]));
    assert(adjacency_covered(areas, a1, a2, jp));
    assert(adjacent_join(areas, rc, path));
    assert forall|k: int| 0 <= k < jp.len() implies adjacent_join(areas, rc, #[trigger] jp[k]) by {
        if k < joins.len() {
            assert(jp[k] == joins[k]);
            assert(adjacent_join(areas, rc, joins[k]));
        } else {
            assert(jp[k] == path);
        }
    }
    assert forall|b1: int, b2: int| adjacency_covered(areas, b1, b2, joins)
        implies #[trigger] adjacency_covered(areas, b1, b2, jp) by {
        lemma_covered_push(areas, b1, b2, joins, path);
    }
}

/// The horizontal extent of an area's room bounding box.
pub open spec fn area_ext_x(a: Area) -> int {
    max_bx(a.rooms@) - min_ax(a.rooms@)
}

/// The vertical extent of an area's room bounding box.
pub open spec fn area_ext_y(a: Area) -> int {
    max_by(a.rooms@) - min_ay(a.rooms@)
}

/// How many grid columns `n` areas fill when assigned round-robin to `rc`
/// rows.
pub open spec fn grid_ncols(n: int, rc: int) -> int {
    (n - 1) / rc + 1
}

/// Column widths after scanning the first `i` areas in index order: entry
/// `c` is the largest horizontal extent among the scanned areas of column
/// `c`, starting from all zeros.
pub open spec fn col_widths_upto(areas: Seq<Area>, rc: int, ncols: int, i: int) -> Seq<int>
    decreases i,
{
    if i <= 0 {
        Seq::new(if ncols <= 0 { 0 } else { ncols as nat }, |c: int| 0int)
    } else {
        let prev = col_widths_upto(areas, rc, ncols, i - 1);
        prev.update((i - 1) / rc, crate::tunnels::imax(prev[(i - 1) / rc], area_ext_x(areas[i - 1])))
    }
}

/// The width of every column: the largest horizontal extent of any area
/// occupying it.
pub open spec fn col_widths(areas: Seq<Area>, rc: int) -> Seq<int> {
    col_widths_upto(areas, rc, grid_ncols(areas.len() as int, rc), areas.len() as int)
}

/// Row heights after scanning the first `i` areas, one entry per grid row.
pub open spec fn row_heights_upto(areas: Seq<Area>, rc: int, i: int) -> Seq<int>
    decreases i,
{
    if i <= 0 {
        Seq::new(if rc <= 0 { 0 } else { rc as nat }, |r: int| 0int)
    } else {
        let prev = row_heights_upto(areas, rc, i - 1);
        prev.update((i - 1) % rc, crate::tunnels::imax(prev[(i - 1) % rc], area_ext_y(areas[i - 1])))
    }
}

/// The height of every row: the largest vertical extent of any area
/// occupying it.
pub open spec fn row_heights(areas: Seq<Area>, rc: int) -> Seq<int> {
    row_heights_upto(areas, rc, areas.len() as int)
}

/// Where the cell with the given index along an axis starts: the
/// cumulative extents of the cells before it, each followed by the grid
/// spacing.
pub open spec fn offset_in(widths: Seq<int>, c: int) -> int
    decreases c,
{
    if c <= 0 {
        0
    } else {
        offset_in(widths, c - 1) + widths[c - 1] + GRID_SPACING
    }
}

/// Every cell along the axis, extent included, stays within the world
/// bound.
pub open spec fn offsets_fit(widths: Seq<int>) -> bool {
    forall|c: int| 0 <= c < widths.len()
        ==> #[trigger] offset_in(widths, c) + widths[c] + GRID_SPACING <= WORLD_LIMIT
}

/// The whole grid layout fits the world bound on both axes.
pub open spec fn layout_fits(areas: Seq<Area>, rc: int) -> bool {
    offsets_fit(col_widths(areas, rc)) && offsets_fit(row_heights(areas, rc))
}

/// Where `position_areas` leaves the area of index `i`: its bounding box
/// starts at its cell's column and row offsets, spans its old extent, and
/// the whole area is the old one translated by a single delta.
pub open spec fn placed_at(areas_before: Seq<Area>, rc: int, a: Area, i: int) -> bool {
    &&& min_ax(a.rooms@) == offset_in(col_widths(areas_before, rc), i / rc)
    &&& min_ay(a.rooms@) == offset_in(row_heights(areas_before, rc), i % rc)
    &&& max_bx(a.rooms@) == offset_in(col_widths(areas_before, rc), i / rc) + area_ext_x(areas_before[i])
    &&& max_by(a.rooms@) == offset_in(row_heights(areas_before, rc), i % rc) + area_ext_y(areas_before[i])
    &&& crate::area::is_translated_copy(a, areas_before[i])
}

/// The column-width scan always yields one entry per column.
proof fn lemma_col_widths_len(areas: Seq<Area>, rc: int, ncols: int, i: int)
    requires
        rc >= 1,
        ncols >= 1,
        0 <= i <= areas.len(),
        (areas.len() - 1) / rc < ncols,
    ensures
        col_widths_upto(areas, rc, ncols, i).len() == ncols,
    decreases i,
{
    if i > 0 {
        lemma_col_widths_len(areas, rc, ncols, i - 1);
        vstd::arithmetic::div_mod::lemma_div_is_ordered(i - 1, areas.len() - 1, rc);
        vstd::arithmetic::div_mod::lemma_div_pos_is_pos(i - 1, rc);
    }
}

/// The row-height scan always yields one entry per row.
proof fn lemma_row_heights_len(areas: Seq<Area>, rc: int, i: int)
    requires
        rc >= 1,
        i >= 0,
    ensures
        row_heights_upto(areas, rc, i).len() == rc,
    decreases i,
{
    if i > 0 {
        lemma_row_heights_len(areas, rc, i - 1);
        vstd::arithmetic::div_mod::lemma_mod_bound(i - 1, rc);
    }
}

/// How a full generation run ended.
#[derive(Clone, Copy, Debug, PartialEq, Eq, Structural)]
pub enum GenerateOutcome {
    /// Every stage completed; the tile set is the finished map.
    Success,
    /// Some area exhausted its room placement attempts.
    PlacementFailed,
    /// The packed grid would leave the world bound.
    LayoutTooLarge,
}

/// The area holds a layout that its configured generator and strategy
/// produced, translated whole into place.
pub open spec fn generated_then_placed(a: Area) -> bool {
    exists|orig: Area| #[trigger] area_generated(orig) && crate::area::is_translated_copy(a, orig)
}

/// The whole pipeline's effect on the areas, with the freshly generated
/// layouts `mid` as witness: every `mid[i]` came from `before[i]`'s
/// configuration, and every final area is `mid[i]` landed on its grid
/// cell.
pub open spec fn pipeline_post(before: Seq<Area>, rc: int, after: Seq<Area>, mid: Seq<Area>) -> bool {
    &&& mid.len() == after.len()
    &&& forall|i: int| 0 <= i < mid.len()
        ==> area_generated(#[trigger] mid[i])
            && mid[i].generator == before[i].generator
            && mid[i].tunneler == before[i].tunneler
            && mid[i].strategy == before[i].strategy
    &&& forall|i: int| 0 <= i < mid.len()
        ==> placed_at(mid, rc, #[trigger] after[i], i)
}

/// The largest extent a single seed room of this variant can have.
pub open spec fn seed_ext_bound(g: crate::generator::RoomGenerator) -> int {
    match g {
        crate::generator::RoomGenerator::Chamber { max_size, .. } => max_size - 1,
        crate::generator::RoomGenerator::Grow { max_size, .. } => max_size - 1,
        crate::generator::RoomGenerator::GrowSeparated { max_size, .. } => max_size - 1,
    }
}

/// Even in the worst case, a grid of seed-only areas bounded by `b` fits
/// the world: enough room for every column and every row.
pub open spec fn small_grid_fits(areas: Seq<Area>, rc: int, b: int) -> bool {
    &&& 0 <= b
    &&& forall|i: int| 0 <= i < areas.len()
        ==> seed_ext_bound((#[trigger] areas[i]).generator) <= b
    &&& grid_ncols(areas.len() as int, rc) * (b + GRID_SPACING) <= WORLD_LIMIT
    &&& rc * (b + GRID_SPACING) <= WORLD_LIMIT
}

/// Scanned column widths stay within the bound on the areas' extents.
proof fn lemma_scan_bounded_cols(areas: Seq<Area>, rc: int, ncols: int, i: int, b: int)
    requires
        rc >= 1,
        ncols >= 1,
        0 <= i <= areas.len(),
        (areas.len() - 1) / rc < ncols,
        0 <= b,
        forall|j: int| 0 <= j < areas.len() ==> 0 <= area_ext_x(#[trigger] areas[j]) <= b,
    ensures
        forall|c: int| 0 <= c < ncols
            ==> 0 <= #[trigger] col_widths_upto(areas, rc, ncols, i)[c] <= b,
    decreases i,
{
    lemma_col_widths_len(areas, rc, ncols, i);
    if i > 0 {
        lemma_scan_bounded_cols(areas, rc, ncols, i - 1, b);
        lemma_col_widths_len(areas, rc, ncols, i - 1);
        vstd::arithmetic::div_mod::lemma_div_is_ordered(i - 1, areas.len() - 1, rc);
        vstd::arithmetic::div_mod::lemma_div_pos_is_pos(i - 1, rc);
        let prev = col_widths_upto(areas, rc, ncols, i - 1);
        let cur = col_widths_upto(areas, rc, ncols, i);
        assert forall|c: int| 0 <= c < ncols implies 0 <= #[trigger] cur[c] <= b by {
            if c != (i - 1) / rc {
                assert(cur[c] == prev[c]);
            }
        }
    }
}

/// Scanned row heights stay within the bound on the areas' extents.
proof fn lemma_scan_bounded_rows(areas: Seq<Area>, rc: int, i: int, b: int)
    requires
        rc >= 1,
        0 <= i <= areas.len(),
        0 <= b,
        forall|j: int| 0 <= j < areas.len() ==> 0 <= area_ext_y(#[trigger] areas[j]) <= b,
    ensures
        forall|r: int| 0 <= r < rc
            ==> 0 <= #[trigger] row_heights_upto(areas, rc, i)[r] <= b,
    decreases i,
{
    lemma_row_heights_len(areas, rc, i);
    if i > 0 {
        lemma_scan_bounded_rows(areas, rc, i - 1, b);
        lemma_row_heights_len(areas, rc, i - 1);
        vstd::arithmetic::div_mod::lemma_mod_bound(i - 1, rc);
        let prev = row_heights_upto(areas, rc, i - 1);
        let cur = row_heights_upto(areas, rc, i);
        assert forall|r: int| 0 <= r < rc implies 0 <= #[trigger] cur[r] <= b by {
            if r != (i - 1) % rc {
                assert(cur[r] == prev[r]);
            }
        }
    }
}

/// Offsets over bounded cells grow by at most the bound plus the spacing
/// per cell.
proof fn lemma_offsets_bounded(widths: Seq<int>, c: int, b: int)
    requires
        0 <= c <= widths.len(),
        0 <= b,
        forall|k: int| 0 <= k < widths.len() ==> 0 <= #[trigger] widths[k] <= b,
    ensures
        0 <= offset_in(widths, c) <= c * (b + GRID_SPACING),
    decreases c,
{
    if c > 0 {
        lemma_offsets_bounded(widths, c - 1, b);
        assert((c - 1) * (b + GRID_SPACING) + (b + GRID_SPACING) == c * (b + GRID_SPACING))
            by (nonlinear_arith);
    }
}

/// A grid of uniformly small areas always fits the world bound.
pub proof fn lemma_small_layout_fits(areas: Seq<Area>, rc: int, b: int)
    requires
        rc >= 1,
        areas.len() >= 1,
        0 <= b,
        forall|i: int| 0 <= i < areas.len()
            ==> 0 <= area_ext_x(#[trigger] areas[i]) <= b && 0 <= area_ext_y(areas[i]) <= b,
        grid_ncols(areas.len() as int, rc) * (b + GRID_SPACING) <= WORLD_LIMIT,
        rc * (b + GRID_SPACING) <= WORLD_LIMIT,
    ensures
        layout_fits(areas, rc),
{
    let n = areas.len() as int;
    let ncols = grid_ncols(n, rc);
    vstd::arithmetic::div_mod::lemma_div_pos_is_pos(n - 1, rc);
    lemma_scan_bounded_cols(areas, rc, ncols, n, b);
    lemma_col_widths_len(areas, rc, ncols, n);
    let cwv = col_widths(areas, rc);
    assert forall|c: int| 0 <= c < cwv.len()
        implies #[trigger] offset_in(cwv, c) + cwv[c] + GRID_SPACING <= WORLD_LIMIT by {
        lemma_offsets_bounded(cwv, c, b);
        assert(c * (b + GRID_SPACING) + (b + GRID_SPACING) == (c + 1) * (b + GRID_SPACING))
            by (nonlinear_arith);
        assert((c + 1) * (b + GRID_SPACING) <= ncols * (b + GRID_SPACING)) by (nonlinear_arith)
            requires c + 1 <= ncols && b + GRID_SPACING >= 0;
    }
    lemma_scan_bounded_rows(areas, rc, n, b);
    lemma_row_heights_len(areas, rc, n);
    let rhv = row_heights(areas, rc);
    assert forall|r: int| 0 <= r < rhv.len()
        implies #[trigger] offset_in(rhv, r) + rhv[r] + GRID_SPACING <= WORLD_LIMIT by {
        lemma_offsets_bounded(rhv, r, b);
        assert(r * (b + GRID_SPACING) + (b + GRID_SPACING) == (r + 1) * (b + GRID_SPACING))
            by (nonlinear_arith);
        assert((r + 1) * (b + GRID_SPACING) <= rc * (b + GRID_SPACING)) by (nonlinear_arith)
            requires r + 1 <= rc && b + GRID_SPACING >= 0;
    }
}

/// Two well-formed areas whose bounding boxes are separated share no tile
/// at all: rooms lie inside the box, and by well-formedness every corridor
/// tile does too.
pub proof fn lemma_bbox_disjoint_tiles(a1: Area, a2: Area)
    requires
        a1.rooms@.len() >= 1,
        a2.rooms@.len() >= 1,
        area_wf(a1),
        area_wf(a2),
        bbox_disjoint(a1, a2),
    ensures
        area_tiles(a1).disjoint(area_tiles(a2)),
{
    crate::area::lemma_bounds_characterize(a1.rooms@);
    crate::area::lemma_bounds_characterize(a2.rooms@);
    assert forall|p: Vector2Int| area_tiles(a1).contains(p)
        implies !area_tiles(a2).contains(p) by {
        assert(min_ax(a1.rooms@) <= p.x <= max_bx(a1.rooms@)
            && min_ay(a1.rooms@) <= p.y <= max_by(a1.rooms@)) by {
            if exists|i: int| 0 <= i < a1.rooms@.len() && in_room(#[trigger] a1.rooms@[i], p) {
                let i = choose|i: int| 0 <= i < a1.rooms@.len() && in_room(#[trigger] a1.rooms@[i], p);
                assert(in_room(a1.rooms@[i], p));
            }
        }
        if area_tiles(a2).contains(p) {
            assert(min_ax(a2.rooms@) <= p.x <= max_bx(a2.rooms@)
                && min_ay(a2.rooms@) <= p.y <= max_by(a2.rooms@)) by {
                if exists|i: int| 0 <= i < a2.rooms@.len() && in_room(#[trigger] a2.rooms@[i], p) {
                    let i = choose|i: int| 0 <= i < a2.rooms@.len() && in_room(#[trigger] a2.rooms@[i], p);
                    assert(in_room(a2.rooms@[i], p));
                }
            }
        }
    }
    assert(area_tiles(a1).disjoint(area_tiles(a2)));
}

/// No element of the tile list repeats, so its length is the size of the
/// tile set.
pub open spec fn tiles_distinct(tiles: Seq<Vector2Int>) -> bool {
    forall|i: int, j: int| 0 <= i < j < tiles.len() ==> tiles[i] != tiles[j]
}

/// A dungeon: its areas, their round-robin row assignment, and after
/// generation the final tile set.
pub struct Dungeon {
    pub tiles: Vec<Vector2Int>,
    pub areas: Vec<Area>,
    pub row_count: usize,
    pub rows: Vec<Vec<usize>>,
}

impl Dungeon {
    /// The grid bookkeeping is intact: with `n` areas added so far, row `r`
    /// holds exactly the indices congruent to `r`, in order, so cell
    /// `(r, c)` holds index `c * row_count + r`.
    pub open spec fn grid_wf(self) -> bool {
        &&& self.row_count >= 1
        &&& self.rows@.len() == self.row_count
        &&& forall|r: int, c: int|
            0 <= r < self.row_count && 0 <= c < self.rows@[r]@.len()
            ==> #[trigger] self.rows@[r]@[c] == c * self.row_count + r
                && c * self.row_count + r < self.areas@.len()
        &&& forall|r: int, c: int|
            #![trigger self.rows@[r]@.len(), c * self.row_count]
            0 <= r < self.row_count && 0 <= c
                && (c * self.row_count) + r < self.areas@.len()
            ==> c < self.rows@[r]@.len()
    }

    /// Grid bookkeeping only reads the rows, the row count and how many
    /// areas there are, so it survives any change that keeps those.
    proof fn lemma_grid_wf_same(d1: Dungeon, d2: Dungeon)
        requires
            d1.grid_wf(),
            d2.rows@ == d1.rows@,
            d2.row_count == d1.row_count,
            d2.areas@.len() == d1.areas@.len(),
        ensures
            d2.grid_wf(),
    {
        assert forall|r: int, c: int|
            0 <= r < d2.row_count && 0 <= c < d2.rows@[r]@.len()
            implies #[trigger] d2.rows@[r]@[c] == c * d2.row_count + r
                && c * d2.row_count + r < d2.areas@.len() by {
            assert(d1.rows@[r]@[c] == c * d1.row_count + r);
        }
        assert forall|r: int, c: int|
            #![trigger d2.rows@[r]@.len(), c * d2.row_count]
            0 <= r < d2.row_count && 0 <= c
                && (c * d2.row_count) + r < d2.areas@.len()
            implies c < d2.rows@[r]@.len() by {
            assert(d1.rows@[r]@.len() == d2.rows@[r]@.len());
            assert(c * d1.row_count + r < d1.areas@.len());
            assert(c < d1.rows@[r]@.len());
        }
    }

    /// An empty dungeon whose areas will be assigned round-robin to
    /// `row_count` rows.
    pub fn new(row_count: usize) -> (r: Dungeon)
        requires
            row_count >= 1,
        ensures
            r.row_count == row_count,
            r.areas@.len() == 0,
            r.tiles@.len() == 0,
            r.grid_wf(),
    {
        let mut rows: Vec<Vec<usize>> = Vec::new();
        let mut i: usize = 0;
        while i < row_count
            invariant
                i <= row_count,
                rows@.len() == i,
                forall|r: int| 0 <= r < i ==> (#[trigger] rows@[r])@.len() == 0,
            decreases row_count - i,
        {
            rows.push(Vec::new());
            i = i + 1;
        }
        let d = Dungeon {
            tiles: Vec::new(),
            areas: Vec::new(),
            row_count,
            rows,
        };
        proof {
            assert forall|r: int, c: int|
                #![trigger d.rows@[r]@.len(), c * d.row_count]
                0 <= r < d.row_count && 0 <= c
                    && (c * d.row_count) + r < d.areas@.len()
                implies c < d.rows@[r]@.len() by {
                assert(c * d.row_count >= 0) by (nonlinear_arith)
                    requires c >= 0 && d.row_count >= 1;
            }
        }
        d
    }

    /// Appends an area and assigns its index to row `index % row_count`.
    pub fn add_area(&mut self, area: Area)
        requires
            old(self).grid_wf(),
            old(self).areas@.len() < usize::MAX,
        ensures
            final(self).areas@ == old(self).areas@.push(area),
            final(self).row_count == old(self).row_count,
            final(self).tiles@ == old(self).tiles@,
            final(self).grid_wf(),
    {
        let n = self.areas.len();
        self.areas.push(area);
        let r = n % self.row_count;
        let ghost q = n as int / self.row_count as int;
        proof {
            vstd::arithmetic::div_mod::lemma_fundamental_div_mod(n as int, self.row_count as int);
            assert(n as int == (self.row_count as int) * q + (n as int % self.row_count as int));
            assert((self.row_count as int) * q == q * (self.row_count as int)) by (nonlinear_arith);
            assert(n as int == q * self.row_count + (n as int % self.row_count as int));
            // the row currently holds exactly q cells
            let len = self.rows@[r as int]@.len() as int;
            if len > q {
                assert(self.rows@[r as int]@[q] == q * self.row_count + r);
                assert(q * self.row_count + r < n as int + 1);
            }
            if len > 0 {
                assert(self.rows@[r as int]@[len - 1] == (len - 1) * self.row_count + r);
                assert((len - 1) * self.row_count + r < n as int);
                assert((len - 1) * self.row_count < q * self.row_count ==> len - 1 < q) by (nonlinear_arith)
                    requires self.row_count >= 1;
            }
            if len < q {
                assert((q - 1) * self.row_count + r < n as int) by (nonlinear_arith)
                    requires
                        n as int == q * self.row_count + r,
                        self.row_count >= 1,
                        q >= 1;
                assert(q - 1 < len);
            }
            assert(len == q);
        }
        let ghost old_rows = self.rows@;
        let mut row = self.rows.remove(r);
        row.push(n);
        self.rows.insert(r, row);
        proof {
            assert forall|r2: int| 0 <= r2 < self.row_count && r2 != r
                implies self.rows@[r2] == old_rows[r2] by {}
            assert(self.rows@[r as int]@ == old_rows[r as int]@.push(n));
            assert(self.areas@.len() == n + 1);
            assert forall|r2: int, c: int|
                0 <= r2 < self.row_count && 0 <= c < self.rows@[r2]@.len()
                implies #[trigger] self.rows@[r2]@[c] == c * self.row_count + r2
                    && c * self.row_count + r2 < self.areas@.len() by {
                if r2 == r && c == q {
                    assert(self.rows@[r2]@[c] == n);
                } else {
                    assert(self.rows@[r2]@[c] == old_rows[r2]@[c]);
                }
            }
            assert forall|r2: int, c: int|
                #![trigger self.rows@[r2]@.len(), c * self.row_count]
                0 <= r2 < self.row_count && 0 <= c
                    && (c * self.row_count) + r2 < self.areas@.len()
                implies c < self.rows@[r2]@.len() by {
                if c * self.row_count + r2 < n as int {
                    assert(c < old_rows[r2]@.len());
                    if r2 == r {
                        assert(self.rows@[r2]@.len() == old_rows[r2]@.len() + 1);
                    }
                } else {
                    // the new cell: its index equals n, which pins row and column
                    assert(c * self.row_count + r2 == n as int);
                    assert(r2 == n as int % self.row_count as int && c == q) by (nonlinear_arith)
                        requires
                            c * self.row_count as int + r2 == n as int,
                            n as int == q * self.row_count as int + (n as int % self.row_count as int),
                            0 <= r2 < self.row_count as int,
                            0 <= (n as int % (self.row_count as int)),
                            (n as int % (self.row_count as int)) < self.row_count as int,
                            c >= 0,
                            q >= 0,
                            self.row_count >= 1;
                    assert(self.rows@[r as int]@.len() == q + 1);
                }
            }
        }
    }
    /// Flattens every area's rooms and corridors into the tile set.
    fn write_areas(&mut self)
        requires
            tiles_distinct(old(self).tiles@),
            forall|i: int| 0 <= i < old(self).areas@.len() ==> rooms_ok((#[trigger] old(self).areas@[i]).rooms@),
        ensures
            final(self).areas@ == old(self).areas@,
            final(self).rows@ == old(self).rows@,
            final(self).row_count == old(self).row_count,
            tiles_distinct(final(self).tiles@),
            final(self).tiles@.to_set() == old(self).tiles@.to_set().union(all_area_tiles(old(self).areas@)),
    {
        let mut i: usize = 0;
        let ghost orig = self.tiles@.to_set();
        while i < self.areas.len()
            invariant
                i <= self.areas@.len(),
                self.areas@ == old(self).areas@,
                self.rows@ == old(self).rows@,
                self.row_count == old(self).row_count,
                forall|j: int| 0 <= j < self.areas@.len() ==> rooms_ok((#[trigger] self.areas@[j]).rooms@),
                tiles_distinct(self.tiles@),
                orig == old(self).tiles@.to_set(),
                self.tiles@.to_set() == orig.union(area_tiles_upto(self.areas@, i as int)),
            decreases self.areas@.len() - i,
        {
            let ghost before = self.tiles@.to_set();
            let area = &self.areas[i];
            write_area(&mut self.tiles, area);
            proof {
                assert forall|p: Vector2Int| self.tiles@.to_set().contains(p)
                    implies orig.union(area_tiles_upto(self.areas@, i + 1)).contains(p) by {
                    if !orig.contains(p) {
                        if area_tiles_upto(self.areas@, i as int).contains(p) {
                            let j = choose|j: int| 0 <= j < i && j < self.areas@.len()
                                && (#[trigger] area_tiles(self.areas@[j])).contains(p);
                            assert(area_tiles(self.areas@[j]).contains(p));
                        } else {
                            assert(area_tiles(self.areas@[i as int]).contains(p));
                        }
                    }
                }
                assert forall|p: Vector2Int| orig.union(area_tiles_upto(self.areas@, i + 1)).contains(p)
                    implies self.tiles@.to_set().contains(p) by {
                    if area_tiles_upto(self.areas@, i + 1).contains(p) {
                        let j = choose|j: int| 0 <= j < i + 1 && j < self.areas@.len()
                            && (#[trigger] area_tiles(self.areas@[j])).contains(p);
                        if j < i {
                            assert(area_tiles_upto(self.areas@, i as int).contains(p));
                        } else {
                            assert(area_tiles(self.areas@[i as int]).contains(p));
                        }
                    }
                }
                assert(self.tiles@.to_set() =~= orig.union(area_tiles_upto(self.areas@, i + 1)));
            }
            i = i + 1;
        }
        proof {
            assert forall|p: Vector2Int|
                area_tiles_upto(self.areas@, self.areas@.len() as int).contains(p)
                implies all_area_tiles(self.areas@).contains(p) by {
                let j = choose|j: int| 0 <= j < self.areas@.len()
                    && (#[trigger] area_tiles(self.areas@[j])).contains(p);
                assert(area_tiles(self.areas@[j]).contains(p));
            }
            assert forall|p: Vector2Int| all_area_tiles(self.areas@).contains(p)
                implies area_tiles_upto(self.areas@, self.areas@.len() as int).contains(p) by {
                let j = choose|j: int| 0 <= j < self.areas@.len()
                    && (#[trigger] area_tiles(self.areas@[j])).contains(p);
                assert(area_tiles(self.areas@[j]).contains(p));
            }
            assert(self.tiles@.to_set()
                =~= old(self).tiles@.to_set().union(all_area_tiles(self.areas@)));
        }
    }

    /// Packs the areas into their grid cells: each column is as wide as its
    /// widest area plus the spacing, each row as tall as its tallest, and
    /// every area is shifted to its cell's origin given by the cumulative
    /// widths and heights.  `false` (leaving every area untouched) when the
    /// layout would leave the world bound.
    #[verifier::rlimit(100)]
    #[verifier::spinoff_prover]
    fn position_areas(&mut self) -> (ok: bool)
        requires
            old(self).grid_wf(),
            forall|i: int| 0 <= i < old(self).areas@.len()
                ==> (#[trigger] old(self).areas@[i]).rooms@.len() >= 1
                    && area_wf(old(self).areas@[i]),
        ensures
            final(self).rows@ == old(self).rows@,
            final(self).row_count == old(self).row_count,
            final(self).tiles@ == old(self).tiles@,
            final(self).areas@.len() == old(self).areas@.len(),
            final(self).grid_wf(),
            !ok ==> final(self).areas@ == old(self).areas@,
            old(self).areas@.len() == 0 ==> ok,
            old(self).areas@.len() > 0
                ==> ok == layout_fits(old(self).areas@, old(self).row_count as int),
            ok ==> forall|i: int| 0 <= i < old(self).areas@.len()
                ==> placed_at(old(self).areas@, old(self).row_count as int,
                    #[trigger] final(self).areas@[i], i),
            forall|i: int| 0 <= i < old(self).areas@.len()
                ==> (#[trigger] final(self).areas@[i]).rooms@.len() == old(self).areas@[i].rooms@.len()
                    && area_wf(final(self).areas@[i])
                    && final(self).areas@[i].generator == old(self).areas@[i].generator
                    && final(self).areas@[i].tunneler == old(self).areas@[i].tunneler
                    && final(self).areas@[i].strategy == old(self).areas@[i].strategy,
            ok ==> forall|i: int, j: int|
                0 <= i < final(self).areas@.len() && 0 <= j < final(self).areas@.len() && i != j
                ==> bbox_disjoint(#[trigger] final(self).areas@[i], #[trigger] final(self).areas@[j]),
    {
        let n = self.areas.len();
        if n == 0 {
            return true;
        }
        let rc = self.row_count;
        let ncols = (n - 1) / rc + 1;
        proof {
            assert((n - 1) as int / rc as int >= 0);
        }

        // column widths and row heights: the extent of the largest area
        let mut colw: Vec<i32> = Vec::new();
        let mut c0: usize = 0;
        while c0 < ncols
            invariant
                c0 <= ncols,
                colw@.len() == c0,
                forall|c: int| 0 <= c < c0 ==> #[trigger] colw@[c] == 0,
            decreases ncols - c0,
        {
            colw.push(0);
            c0 = c0 + 1;
        }
        let mut rowh: Vec<i32> = Vec::new();
        let mut r0: usize = 0;
        while r0 < rc
            invariant
                r0 <= rc,
                rowh@.len() == r0,
                forall|r: int| 0 <= r < r0 ==> #[trigger] rowh@[r] == 0,
            decreases rc - r0,
        {
            rowh.push(0);
            r0 = r0 + 1;
        }

        let ghost mut exts: Seq<(int, int)> = Seq::empty();
        let mut i: usize = 0;
        while i < n
            invariant
                i <= n,
                n == self.areas@.len(),
                rc == self.row_count,
                rc >= 1,
                ncols == (n - 1) as int / rc as int + 1,
                colw@.len() == ncols,
                rowh@.len() == rc,
                exts.len() == i,
                self.areas@ == old(self).areas@,
                forall|j: int| 0 <= j < n
                    ==> (#[trigger] self.areas@[j]).rooms@.len() >= 1 && area_wf(self.areas@[j]),
                forall|c: int| 0 <= c < ncols ==> 0 <= #[trigger] colw@[c] <= 2 * WORLD_LIMIT,
                forall|r: int| 0 <= r < rc ==> 0 <= #[trigger] rowh@[r] <= 2 * WORLD_LIMIT,
                forall|j: int| 0 <= j < i
                    ==> (#[trigger] exts[j]).0 == max_bx(self.areas@[j].rooms@) - min_ax(self.areas@[j].rooms@)
                        && exts[j].1 == max_by(self.areas@[j].rooms@) - min_ay(self.areas@[j].rooms@)
                        && exts[j].0 <= colw@[j / (rc as int)]
                        && exts[j].1 <= rowh@[j % (rc as int)],
                forall|c: int| 0 <= c < ncols
                    ==> #[trigger] colw@[c] as int
                        == col_widths_upto(old(self).areas@, rc as int, ncols as int, i as int)[c],
                forall|r: int| 0 <= r < rc
                    ==> #[trigger] rowh@[r] as int
                        == row_heights_upto(old(self).areas@, rc as int, i as int)[r],
            decreases n - i,
        {
            let c = i / rc;
            let r = i % rc;
            proof {
                vstd::arithmetic::div_mod::lemma_div_is_ordered(i as int, (n - 1) as int, rc as int);
                vstd::arithmetic::div_mod::lemma_div_pos_is_pos(i as int, rc as int);
                vstd::arithmetic::div_mod::lemma_mod_bound(i as int, rc as int);
            }
            let sz = self.areas[i].get_size();
            let ghost old_colw = colw@;
            let ghost old_rowh = rowh@;
            if sz.x > colw[c] {
                colw.set(c, sz.x);
            }
            if sz.y > rowh[r] {
                rowh.set(r, sz.y);
            }
            proof {
                exts = exts.push((sz.x as int, sz.y as int));
                assert forall|j: int| 0 <= j < i + 1
                    implies (#[trigger] exts[j]).0 == max_bx(self.areas@[j].rooms@) - min_ax(self.areas@[j].rooms@)
                        && exts[j].1 == max_by(self.areas@[j].rooms@) - min_ay(self.areas@[j].rooms@)
                        && exts[j].0 <= colw@[j / (rc as int)]
                        && exts[j].1 <= rowh@[j % (rc as int)] by {
                    if j < i {
                        assert(0 <= j / (rc as int) < ncols) by {
                            vstd::arithmetic::div_mod::lemma_div_is_ordered(j, (n - 1) as int, rc as int);
                            vstd::arithmetic::div_mod::lemma_div_pos_is_pos(j, rc as int);
                        }
                        vstd::arithmetic::div_mod::lemma_mod_bound(j, rc as int);
                        assert(colw@[j / (rc as int)] >= old_colw[j / (rc as int)]);
                        assert(rowh@[j % (rc as int)] >= old_rowh[j % (rc as int)]);
                    } else {
                        assert(j / (rc as int) == c as int && j % (rc as int) == r as int);
                    }
                }
                assert(sz.x as int == area_ext_x(old(self).areas@[i as int]));
                assert(sz.y as int == area_ext_y(old(self).areas@[i as int]));
                lemma_col_widths_len(old(self).areas@, rc as int, ncols as int, i as int);
                lemma_col_widths_len(old(self).areas@, rc as int, ncols as int, i + 1);
                lemma_row_heights_len(old(self).areas@, rc as int, i as int);
                lemma_row_heights_len(old(self).areas@, rc as int, i + 1);
                let cwu_next = col_widths_upto(old(self).areas@, rc as int, ncols as int, i + 1);
                let cwu_prev = col_widths_upto(old(self).areas@, rc as int, ncols as int, i as int);
                assert(cwu_next =~= cwu_prev.update(c as int,
                    crate::tunnels::imax(cwu_prev[c as int], area_ext_x(old(self).areas@[i as int]))));
                assert forall|c2: int| 0 <= c2 < ncols
                    implies #[trigger] colw@[c2] as int == cwu_next[c2] by {
                    if c2 != c as int {
                        assert(colw@[c2] == old_colw[c2]);
                    }
                }
                let rhu_next = row_heights_upto(old(self).areas@, rc as int, i + 1);
                let rhu_prev = row_heights_upto(old(self).areas@, rc as int, i as int);
                assert(rhu_next =~= rhu_prev.update(r as int,
                    crate::tunnels::imax(rhu_prev[r as int], area_ext_y(old(self).areas@[i as int]))));
                assert forall|r2: int| 0 <= r2 < rc
                    implies #[trigger] rowh@[r2] as int == rhu_next[r2] by {
                    if r2 != r as int {
                        assert(rowh@[r2] == old_rowh[r2]);
                    }
                }
            }
            i = i + 1;
        }

        let ghost cw = col_widths(old(self).areas@, rc as int);
        let ghost rh = row_heights(old(self).areas@, rc as int);
        proof {
            lemma_col_widths_len(old(self).areas@, rc as int, ncols as int, n as int);
            lemma_row_heights_len(old(self).areas@, rc as int, n as int);
            assert(ncols as int == grid_ncols(n as int, rc as int));
            assert(cw.len() == ncols && rh.len() == rc);
            assert(forall|c: int| 0 <= c < ncols ==> #[trigger] colw@[c] as int == cw[c]);
            assert(forall|r: int| 0 <= r < rc ==> #[trigger] rowh@[r] as int == rh[r]);
        }

        // cumulative offsets, refused when they would leave the world
        let mut cs: Vec<i32> = Vec::new();
        let mut cur: i32 = 0;
        let mut c1: usize = 0;
        while c1 < ncols
            invariant
                *self == *old(self),
                old(self).grid_wf(),
                old(self).areas@.len() >= 1,
                forall|i2: int| 0 <= i2 < old(self).areas@.len()
                    ==> (#[trigger] old(self).areas@[i2]).rooms@.len() >= 1
                        && area_wf(old(self).areas@[i2]),
                c1 <= ncols,
                cs@.len() == c1,
                colw@.len() == ncols,
                n == old(self).areas@.len(),
                n >= 1,
                rc == old(self).row_count,
                rc >= 1,
                ncols as int == grid_ncols(n as int, rc as int),
                cw == col_widths(old(self).areas@, rc as int),
                cw.len() == ncols,
                forall|c: int| 0 <= c < ncols ==> #[trigger] colw@[c] as int == cw[c],
                forall|c: int| 0 <= c < c1 ==> #[trigger] cs@[c] as int == offset_in(cw, c),
                cur as int == offset_in(cw, c1 as int),
                forall|c: int| 0 <= c < ncols ==> 0 <= #[trigger] colw@[c] <= 2 * WORLD_LIMIT,
                0 <= cur <= WORLD_LIMIT,
                c1 == 0 ==> cur == 0,
                c1 > 0 ==> cur == cs@[c1 - 1] + colw@[c1 - 1] + GRID_SPACING,
                cs@.len() > 0 ==> cs@[0] == 0,
                forall|c: int| 0 <= c < c1 - 1
                    ==> #[trigger] cs@[c + 1] == cs@[c] + colw@[c] + GRID_SPACING,
                forall|c: int| 0 <= c < c1
                    ==> 0 <= #[trigger] cs@[c] && cs@[c] + colw@[c] + GRID_SPACING <= WORLD_LIMIT,
            decreases ncols - c1,
        {
            let next = cur + colw[c1] + GRID_SPACING;
            if next > WORLD_LIMIT {
                proof {
                    assert(offset_in(cw, c1 as int) + cw[c1 as int] + GRID_SPACING > WORLD_LIMIT);
                    assert(!offsets_fit(cw));
                }
                return false;
            }
            cs.push(cur);
            cur = next;
            c1 = c1 + 1;
        }
        let mut rs: Vec<i32> = Vec::new();
        let mut curr: i32 = 0;
        let mut r1: usize = 0;
        while r1 < rc
            invariant
                *self == *old(self),
                old(self).grid_wf(),
                old(self).areas@.len() >= 1,
                forall|i2: int| 0 <= i2 < old(self).areas@.len()
                    ==> (#[trigger] old(self).areas@[i2]).rooms@.len() >= 1
                        && area_wf(old(self).areas@[i2]),
                r1 <= rc,
                rs@.len() == r1,
                rowh@.len() == rc,
                n == old(self).areas@.len(),
                n >= 1,
                rc == old(self).row_count,
                rc >= 1,
                rh == row_heights(old(self).areas@, rc as int),
                rh.len() == rc,
                forall|r: int| 0 <= r < rc ==> #[trigger] rowh@[r] as int == rh[r],
                forall|r: int| 0 <= r < r1 ==> #[trigger] rs@[r] as int == offset_in(rh, r),
                curr as int == offset_in(rh, r1 as int),
                forall|r: int| 0 <= r < rc ==> 0 <= #[trigger] rowh@[r] <= 2 * WORLD_LIMIT,
                0 <= curr <= WORLD_LIMIT,
                r1 == 0 ==> curr == 0,
                r1 > 0 ==> curr == rs@[r1 - 1] + rowh@[r1 - 1] + GRID_SPACING,
                rs@.len() > 0 ==> rs@[0] == 0,
                forall|r: int| 0 <= r < r1 - 1
                    ==> #[trigger] rs@[r + 1] == rs@[r] + rowh@[r] + GRID_SPACING,
                forall|r: int| 0 <= r < r1
                    ==> 0 <= #[trigger] rs@[r] && rs@[r] + rowh@[r] + GRID_SPACING <= WORLD_LIMIT,
            decreases rc - r1,
        {
            let next = curr + rowh[r1] + GRID_SPACING;
            if next > WORLD_LIMIT {
                proof {
                    assert(offset_in(rh, r1 as int) + rh[r1 as int] + GRID_SPACING > WORLD_LIMIT);
                    assert(!offsets_fit(rh));
                }
                return false;
            }
            rs.push(curr);
            curr = next;
            r1 = r1 + 1;
        }

        proof {
            assert(offsets_fit(cw)) by {
                assert forall|c: int| 0 <= c < cw.len()
                    implies #[trigger] offset_in(cw, c) + cw[c] + GRID_SPACING <= WORLD_LIMIT by {
                    assert(cs@[c] as int == offset_in(cw, c));
                    assert(colw@[c] as int == cw[c]);
                }
            }
            assert(offsets_fit(rh)) by {
                assert forall|r: int| 0 <= r < rh.len()
                    implies #[trigger] offset_in(rh, r) + rh[r] + GRID_SPACING <= WORLD_LIMIT by {
                    assert(rs@[r] as int == offset_in(rh, r));
                    assert(rowh@[r] as int == rh[r]);
                }
            }
            assert(layout_fits(old(self).areas@, rc as int));
        }

        // move every area to its cell
        let ghost orig_areas = self.areas@;
        let mut placed: Vec<Area> = Vec::new();
        let mut idx: usize = 0;
        while idx < n
            invariant
                idx <= n,
                n >= 1,
                orig_areas == old(self).areas@,
                n == old(self).areas@.len(),
                self.rows@ == old(self).rows@,
                self.tiles@ == old(self).tiles@,
                self.row_count == old(self).row_count,
                old(self).grid_wf(),
                rc == self.row_count,
                rc >= 1,
                ncols == (n - 1) as int / rc as int + 1,
                cs@.len() == ncols,
                rs@.len() == rc,
                colw@.len() == ncols,
                rowh@.len() == rc,
                exts.len() == n,
                self.areas@.len() == n - idx,
                placed@.len() == idx,
                forall|j: int| 0 <= j < n - idx ==> #[trigger] self.areas@[j] == orig_areas[idx + j],
                forall|j: int| 0 <= j < n
                    ==> (#[trigger] orig_areas[j]).rooms@.len() >= 1 && area_wf(orig_areas[j]),
                forall|j: int| 0 <= j < n
                    ==> (#[trigger] exts[j]).0 == max_bx(orig_areas[j].rooms@) - min_ax(orig_areas[j].rooms@)
                        && exts[j].1 == max_by(orig_areas[j].rooms@) - min_ay(orig_areas[j].rooms@)
                        && exts[j].0 <= colw@[j / (rc as int)]
                        && exts[j].1 <= rowh@[j % (rc as int)]
                        && exts[j].0 >= 0 && exts[j].1 >= 0,
                forall|c: int| 0 <= c < ncols ==> 0 <= #[trigger] colw@[c] <= 2 * WORLD_LIMIT,
                forall|r: int| 0 <= r < rc ==> 0 <= #[trigger] rowh@[r] <= 2 * WORLD_LIMIT,
                cs@[0] == 0,
                rs@[0] == 0,
                forall|c: int| 0 <= c < ncols - 1
                    ==> #[trigger] cs@[c + 1] == cs@[c] + colw@[c] + GRID_SPACING,
                forall|r: int| 0 <= r < rc - 1
                    ==> #[trigger] rs@[r + 1] == rs@[r] + rowh@[r] + GRID_SPACING,
                layout_fits(old(self).areas@, rc as int),
                cw == col_widths(old(self).areas@, rc as int),
                rh == row_heights(old(self).areas@, rc as int),
                cw.len() == ncols,
                rh.len() == rc,
                forall|c: int| 0 <= c < ncols ==> #[trigger] cs@[c] as int == offset_in(cw, c),
                forall|r: int| 0 <= r < rc ==> #[trigger] rs@[r] as int == offset_in(rh, r),
                forall|j: int| 0 <= j < idx
                    ==> #[trigger] crate::area::is_translated_copy(placed@[j], orig_areas[j]),
                forall|c: int| 0 <= c < ncols
                    ==> 0 <= #[trigger] cs@[c] && cs@[c] + colw@[c] + GRID_SPACING <= WORLD_LIMIT,
                forall|r: int| 0 <= r < rc
                    ==> 0 <= #[trigger] rs@[r] && rs@[r] + rowh@[r] + GRID_SPACING <= WORLD_LIMIT,
                forall|j: int| 0 <= j < idx
                    ==> (#[trigger] placed@[j]).rooms@.len() == orig_areas[j].rooms@.len()
                        && area_wf(placed@[j])
                        && placed@[j].generator == orig_areas[j].generator
                        && placed@[j].tunneler == orig_areas[j].tunneler
                        && placed@[j].strategy == orig_areas[j].strategy
                        && min_ax(placed@[j].rooms@) == cs@[j / (rc as int)]
                        && min_ay(placed@[j].rooms@) == rs@[j % (rc as int)]
                        && max_bx(placed@[j].rooms@) == cs@[j / (rc as int)] + exts[j].0
                        && max_by(placed@[j].rooms@) == rs@[j % (rc as int)] + exts[j].1,
            decreases n - idx,
        {
            let c = idx / rc;
            let r = idx % rc;
            proof {
                vstd::arithmetic::div_mod::lemma_div_is_ordered(idx as int, (n - 1) as int, rc as int);
                vstd::arithmetic::div_mod::lemma_div_pos_is_pos(idx as int, rc as int);
                vstd::arithmetic::div_mod::lemma_mod_bound(idx as int, rc as int);
                assert(self.areas@[0] == orig_areas[idx as int]);
                assert(orig_areas[idx as int].rooms@.len() >= 1 && area_wf(orig_areas[idx as int]));
                assert((#[trigger] exts[idx as int]).0
                    == max_bx(orig_areas[idx as int].rooms@) - min_ax(orig_areas[idx as int].rooms@));
                assert(exts[idx as int].0 <= colw@[c as int]);
                assert(exts[idx as int].1 <= rowh@[r as int]);
                assert(0 <= cs@[c as int] && cs@[c as int] + colw@[c as int] + GRID_SPACING <= WORLD_LIMIT);
                assert(0 <= rs@[r as int] && rs@[r as int] + rowh@[r as int] + GRID_SPACING <= WORLD_LIMIT);
            }
            let mut area = self.areas.remove(0);
            let ghost pre_shift = area;
            let ghost prev_placed = placed@;
            area.shift(cs[c], rs[r]);
            proof {
                assert(crate::area::translated_from(pre_shift, area,
                    cs@[c as int] - min_ax(pre_shift.rooms@),
                    rs@[r as int] - min_ay(pre_shift.rooms@)));
            }
            placed.push(area);
            proof {
                let di = idx as int;
                assert(placed@[di] == area);
                assert(crate::area::translated_from(orig_areas[di], placed@[di],
                    cs@[c as int] - min_ax(orig_areas[di].rooms@),
                    rs@[r as int] - min_ay(orig_areas[di].rooms@)));
                assert(crate::area::is_translated_copy(placed@[di], orig_areas[di]));
                assert forall|j: int| 0 <= j < di + 1
                    implies #[trigger] crate::area::is_translated_copy(placed@[j], orig_areas[j]) by {
                    if j < di {
                        assert(placed@[j] == prev_placed[j]);
                        assert(crate::area::is_translated_copy(prev_placed[j], orig_areas[j]));
                    }
                }
            }
            idx = idx + 1;
        }
        self.areas = placed;

        proof {
            assert forall|i2: int| 0 <= i2 < self.areas@.len()
                implies placed_at(old(self).areas@, rc as int, #[trigger] self.areas@[i2], i2) by {
                vstd::arithmetic::div_mod::lemma_div_is_ordered(i2, (n - 1) as int, rc as int);
                vstd::arithmetic::div_mod::lemma_div_pos_is_pos(i2, rc as int);
                vstd::arithmetic::div_mod::lemma_mod_bound(i2, rc as int);
                let c2 = i2 / (rc as int);
                let r2 = i2 % (rc as int);
                assert(min_ax(self.areas@[i2].rooms@) == cs@[c2]);
                assert(cs@[c2] as int == offset_in(cw, c2));
                assert(min_ay(self.areas@[i2].rooms@) == rs@[r2]);
                assert((#[trigger] exts[i2]).0 == area_ext_x(old(self).areas@[i2]));
                assert(exts[i2].1 == area_ext_y(old(self).areas@[i2]));
                assert(self.areas@[i2] == placed@[i2]);
                assert(crate::area::is_translated_copy(placed@[i2], orig_areas[i2]));
                assert(crate::area::is_translated_copy(self.areas@[i2], old(self).areas@[i2]));
            }
            assert forall|i2: int, j2: int|
                0 <= i2 < self.areas@.len() && 0 <= j2 < self.areas@.len() && i2 != j2
                implies bbox_disjoint(#[trigger] self.areas@[i2], #[trigger] self.areas@[j2]) by {
                let ci = i2 / (rc as int);
                let ri = i2 % (rc as int);
                let cj = j2 / (rc as int);
                let rj = j2 % (rc as int);
                vstd::arithmetic::div_mod::lemma_fundamental_div_mod(i2, rc as int);
                vstd::arithmetic::div_mod::lemma_fundamental_div_mod(j2, rc as int);
                vstd::arithmetic::div_mod::lemma_div_is_ordered(i2, (n - 1) as int, rc as int);
                vstd::arithmetic::div_mod::lemma_div_is_ordered(j2, (n - 1) as int, rc as int);
                vstd::arithmetic::div_mod::lemma_div_pos_is_pos(i2, rc as int);
                vstd::arithmetic::div_mod::lemma_div_pos_is_pos(j2, rc as int);
                vstd::arithmetic::div_mod::lemma_mod_bound(i2, rc as int);
                vstd::arithmetic::div_mod::lemma_mod_bound(j2, rc as int);
                if ci == cj && ri == rj {
                    assert(i2 == (rc as int) * ci + ri && j2 == (rc as int) * cj + rj);
                    assert(false);
                }
                if ci < cj {
                    lemma_offsets_ordered(cs@, colw@, ci, cj);
                    assert(max_bx(self.areas@[i2].rooms@) < min_ax(self.areas@[j2].rooms@));
                } else if cj < ci {
                    lemma_offsets_ordered(cs@, colw@, cj, ci);
                    assert(max_bx(self.areas@[j2].rooms@) < min_ax(self.areas@[i2].rooms@));
                } else if ri < rj {
                    lemma_offsets_ordered(rs@, rowh@, ri, rj);
                    assert(max_by(self.areas@[i2].rooms@) < min_ay(self.areas@[j2].rooms@));
                } else {
                    lemma_offsets_ordered(rs@, rowh@, rj, ri);
                    assert(max_by(self.areas@[j2].rooms@) < min_ay(self.areas@[i2].rooms@));
                }
            }
        }
        true
    }

    /// Draws one corridor between every pair of grid-adjacent areas: each
    /// cell to its left neighbor in the same row, and to the cell above it
    /// in the previous row.  Only the tile set grows; the areas stay as
    /// they are.
    #[verifier::rlimit(100)]
    #[verifier::spinoff_prover]
    fn connect_areas(&mut self, rng: &mut RandomSource) -> (r: Ghost<Seq<Seq<Vector2Int>>>)
        requires
            old(self).grid_wf(),
            tiles_distinct(old(self).tiles@),
            forall|i: int| 0 <= i < old(self).areas@.len()
                ==> (#[trigger] old(self).areas@[i]).rooms@.len() >= 1
                    && rooms_ok(old(self).areas@[i].rooms@),
        ensures
            final(self).areas@ == old(self).areas@,
            final(self).rows@ == old(self).rows@,
            final(self).row_count == old(self).row_count,
            tiles_distinct(final(self).tiles@),
            final(self).tiles@.to_set() == old(self).tiles@.to_set().union(joins_tiles(r@)),
            joins_ok(old(self).areas@, old(self).row_count as int, r@),
            all_adjacencies_joined(old(self).areas@, old(self).row_count as int, r@),
    {
        let n = self.areas.len();
        let rc = self.row_count;
        let ghost mut joins: Seq<Seq<Vector2Int>> = Seq::empty();
        let mut i: usize = 0;
        while i < n
            invariant
                i <= n,
                n == self.areas@.len(),
                rc == self.row_count,
                rc >= 1,
                self.areas@ == old(self).areas@,
                self.rows@ == old(self).rows@,
                self.row_count == old(self).row_count,
                forall|j: int| 0 <= j < n
                    ==> (#[trigger] self.areas@[j]).rooms@.len() >= 1
                        && rooms_ok(self.areas@[j].rooms@),
                tiles_distinct(self.tiles@),
                self.tiles@.to_set() == old(self).tiles@.to_set().union(joins_tiles(joins)),
                joins_ok(self.areas@, rc as int, joins),
                forall|a1: int, a2: int|
                    0 <= a2 < a1 < i && #[trigger] grid_adjacent(a1, a2, rc as int)
                        ==> adjacency_covered(self.areas@, a1, a2, joins),
            decreases n - i,
        {
            if i >= rc {
                let path = self.areas[i].join(&self.areas[i - rc], rng);
                proof {
                    assert(join_between(self.areas@, i as int, i as int - rc, path@));
                }
                let ghost prev = joins;
                insert_all(&mut self.tiles, &path);
                proof {
                    joins = joins.push(path@);
                    lemma_joins_tiles_push(prev, path@);
                    assert(self.tiles@.to_set()
                        =~= old(self).tiles@.to_set().union(joins_tiles(joins)));
                    assert(grid_adjacent(i as int, i as int - rc, rc as int));
                    lemma_record_join(self.areas@, rc as int, prev, path@, i as int, i as int - rc);
                }
            }
            if i >= 1 && i % rc != 0 {
                let path = self.areas[i].join(&self.areas[i - 1], rng);
                proof {
                    assert(join_between(self.areas@, i as int, i as int - 1, path@));
                }
                let ghost prev = joins;
                insert_all(&mut self.tiles, &path);
                proof {
                    joins = joins.push(path@);
                    lemma_joins_tiles_push(prev, path@);
                    assert(self.tiles@.to_set()
                        =~= old(self).tiles@.to_set().union(joins_tiles(joins)));
                    assert(grid_adjacent(i as int, i as int - 1, rc as int));
                    lemma_record_join(self.areas@, rc as int, prev, path@, i as int, i as int - 1);
                }
            }
            proof {
                assert forall|a1: int, a2: int|
                    0 <= a2 < a1 < i + 1 && #[trigger] grid_adjacent(a1, a2, rc as int)
                    implies adjacency_covered(self.areas@, a1, a2, joins) by {
                    if a1 == i as int {
                        if a1 - a2 == rc as int {
                            assert(i >= rc);
                        } else {
                            assert(a1 - a2 == 1 && a1 % (rc as int) != 0);
                            assert(i >= 1) by {
                                vstd::arithmetic::div_mod::lemma_small_mod(0, rc as nat);
                            }
                        }
                    }
                }
            }
            i = i + 1;
        }
        Ghost(joins)
    }

    /// Runs the whole pipeline: every area generates its layout, the areas
    /// are packed into their grid cells, their tiles are flattened into the
    /// dungeon's tile set, and grid-adjacent areas are stitched together
    /// with corridors, one corridor per adjacency.  The outcome tells a
    /// failed room placement apart from a layout that would leave the
    /// world bound; the tile set is meaningful only after success, which
    /// is guaranteed whenever no area needs a grown room and even the
    /// worst-case seed sizes fit the grid.
    #[verifier::rlimit(100)]
    #[verifier::spinoff_prover]
    pub fn generate(&mut self, rng: &mut RandomSource) -> (r: GenerateOutcome)
        requires
            old(self).grid_wf(),
            old(self).tiles@.len() == 0,
            forall|i: int| 0 <= i < old(self).areas@.len()
                ==> params_ok((#[trigger] old(self).areas@[i]).generator),
        ensures
            final(self).grid_wf(),
            final(self).row_count == old(self).row_count,
            final(self).areas@.len() == old(self).areas@.len(),
            r == GenerateOutcome::Success ==> forall|i: int| 0 <= i < final(self).areas@.len()
                ==> (#[trigger] final(self).areas@[i]).rooms@.len()
                        == expected_rooms(old(self).areas@[i].generator)
                    && final(self).areas@[i].rooms@.len() >= 1
                    && final(self).areas@[i].generator == old(self).areas@[i].generator
                    && final(self).areas@[i].tunneler == old(self).areas@[i].tunneler
                    && final(self).areas@[i].strategy == old(self).areas@[i].strategy
                    && area_wf(final(self).areas@[i])
                    && generated_then_placed(final(self).areas@[i]),
            r == GenerateOutcome::Success ==> forall|i: int, j: int|
                0 <= i < final(self).areas@.len() && 0 <= j < final(self).areas@.len() && i != j
                ==> bbox_disjoint(#[trigger] final(self).areas@[i], #[trigger] final(self).areas@[j])
                    && area_tiles(final(self).areas@[i]).disjoint(area_tiles(final(self).areas@[j])),
            r == GenerateOutcome::Success ==> tiles_distinct(final(self).tiles@),
            r == GenerateOutcome::Success ==> exists|joins: Seq<Seq<Vector2Int>>|
                final(self).tiles@.to_set()
                    == all_area_tiles(final(self).areas@).union(joins_tiles(joins))
                    && joins_ok(final(self).areas@, final(self).row_count as int, joins)
                    && all_adjacencies_joined(final(self).areas@, final(self).row_count as int, joins),
            r == GenerateOutcome::Success ==> exists|mid: Seq<Area>|
                #[trigger] pipeline_post(old(self).areas@, final(self).row_count as int,
                    final(self).areas@, mid),
            r == GenerateOutcome::PlacementFailed ==> exists|i: int|
                0 <= i < old(self).areas@.len()
                    && expected_rooms((#[trigger] old(self).areas@[i]).generator) > 1,
            r == GenerateOutcome::LayoutTooLarge ==> {
                &&& final(self).areas@.len() > 0
                &&& !layout_fits(final(self).areas@, final(self).row_count as int)
                &&& forall|i: int| 0 <= i < final(self).areas@.len()
                    ==> (#[trigger] final(self).areas@[i]).rooms@.len() >= 1
                        && area_wf(final(self).areas@[i])
                        && area_generated(final(self).areas@[i])
                        && final(self).areas@[i].generator == old(self).areas@[i].generator
            },
            old(self).areas@.len() == 0 ==> r == GenerateOutcome::Success,
            ((forall|i: int| 0 <= i < old(self).areas@.len()
                ==> expected_rooms((#[trigger] old(self).areas@[i]).generator) <= 1)
                && (exists|b: int| small_grid_fits(old(self).areas@, old(self).row_count as int, b)))
                ==> r == GenerateOutcome::Success,
    {
        let n = self.areas.len();
        let mut regrown: Vec<Area> = Vec::new();
        let mut all_ok = true;
        let ghost mut bad: int = 0;
        let mut idx: usize = 0;
        while idx < n
            invariant
                idx <= n,
                n == old(self).areas@.len(),
                self.areas@.len() == n - idx,
                regrown@.len() == idx,
                self.rows@ == old(self).rows@,
                self.tiles@ == old(self).tiles@,
                self.row_count == old(self).row_count,
                old(self).grid_wf(),
                old(self).tiles@.len() == 0,
                forall|j: int| 0 <= j < n - idx
                    ==> #[trigger] self.areas@[j] == old(self).areas@[idx + j],
                forall|j: int| 0 <= j < old(self).areas@.len()
                    ==> params_ok((#[trigger] old(self).areas@[j]).generator),
                forall|j: int| 0 <= j < idx
                    ==> (#[trigger] regrown@[j]).generator == old(self).areas@[j].generator
                        && regrown@[j].tunneler == old(self).areas@[j].tunneler
                        && regrown@[j].strategy == old(self).areas@[j].strategy,
                idx == 0 ==> all_ok,
                all_ok ==> forall|j: int| 0 <= j < idx
                    ==> (#[trigger] regrown@[j]).rooms@.len() >= 1
                        && area_wf(regrown@[j])
                        && area_generated(regrown@[j]),
                !all_ok ==> 0 <= bad < n
                    && expected_rooms(old(self).areas@[bad].generator) > 1,
            decreases n - idx,
        {
            proof {
                assert(self.areas@[0] == old(self).areas@[idx as int]);
            }
            let mut area = self.areas.remove(0);
            let ok = area.generate_rooms(rng);
            if !ok {
                all_ok = false;
                proof {
                    bad = idx as int;
                }
            }
            regrown.push(area);
            idx = idx + 1;
        }
        self.areas = regrown;
        if !all_ok {
            proof {
                assert(expected_rooms(old(self).areas@[bad].generator) > 1);
            }
            return GenerateOutcome::PlacementFailed;
        }
        proof {
            assert forall|i: int| 0 <= i < self.areas@.len()
                implies (#[trigger] self.areas@[i]).rooms@.len() >= 1 && area_wf(self.areas@[i]) by {}
        }
        if !self.position_areas() {
            proof {
                // a dungeon of seed-only areas within the worst-case bound
                // can never reach this point
                if (forall|i: int| 0 <= i < old(self).areas@.len()
                        ==> expected_rooms((#[trigger] old(self).areas@[i]).generator) <= 1)
                    && (exists|b: int| small_grid_fits(old(self).areas@, old(self).row_count as int, b)) {
                    let rc = self.row_count as int;
                    let b = choose|b: int| small_grid_fits(old(self).areas@, rc, b);
                    assert forall|i: int| 0 <= i < self.areas@.len()
                        implies 0 <= area_ext_x(#[trigger] self.areas@[i]) <= b
                            && 0 <= area_ext_y(self.areas@[i]) <= b by {
                        let a = self.areas@[i];
                        assert(area_generated(a));
                        let conns = choose|conns: Seq<(usize, usize)>|
                            #[trigger] crate::generator::generator_post(a.generator, a.rooms@, conns)
                                && crate::strategy::plan_post(a.strategy, a.tunneler, a.rooms@, conns, a.paths@);
                        assert(a.generator == old(self).areas@[i].generator);
                        assert(expected_rooms(a.generator) <= 1);
                        assert(a.rooms@.len() == 1);
                        assert(min_ax(a.rooms@) == a.rooms@[0].a.x);
                        assert(max_bx(a.rooms@) == a.rooms@[0].b.x);
                        assert(min_ay(a.rooms@) == a.rooms@[0].a.y);
                        assert(max_by(a.rooms@) == a.rooms@[0].b.y);
                        assert(crate::generator::room_sizes_ok(a.generator, a.rooms@));
                        assert(params_ok(a.generator));
                        assert(seed_ext_bound(a.generator) <= b);
                    }
                    lemma_small_layout_fits(self.areas@, rc, b);
                    assert(false);
                }
            }
            return GenerateOutcome::LayoutTooLarge;
        }
        let ghost placed_areas = self.areas@;
        let ghost after_position = *self;
        proof {
            assert(after_position.grid_wf());
            assert forall|i: int| 0 <= i < self.areas@.len()
                implies rooms_ok((#[trigger] self.areas@[i]).rooms@) by {
                assert(area_wf(self.areas@[i]));
            }
        }
        self.write_areas();
        proof {
            Self::lemma_grid_wf_same(after_position, *self);
        }
        let joins = self.connect_areas(rng);
        let ghost after_connect = *self;
        proof {
            Self::lemma_grid_wf_same(after_position, after_connect);
        }
        proof {
            // the tile set is the areas' tiles plus the stitching corridors
            assert(old(self).tiles@.to_set() =~= Set::<Vector2Int>::empty());
            assert(old(self).tiles@.to_set().union(all_area_tiles(placed_areas))
                =~= all_area_tiles(placed_areas));
            assert(self.tiles@.to_set()
                == all_area_tiles(self.areas@).union(joins_tiles(joins@)));
            assert forall|i: int, j: int|
                0 <= i < self.areas@.len() && 0 <= j < self.areas@.len() && i != j
                implies area_tiles(#[trigger] self.areas@[i]).disjoint(area_tiles(#[trigger] self.areas@[j])) by {
                lemma_bbox_disjoint_tiles(self.areas@[i], self.areas@[j]);
            }
            // room counts survive positioning: the generated layout fixed them
            assert forall|i: int| 0 <= i < self.areas@.len()
                implies (#[trigger] self.areas@[i]).rooms@.len()
                    == expected_rooms(old(self).areas@[i].generator) by {
                let a = regrown@[i];
                assert(area_generated(a));
                let conns = choose|conns: Seq<(usize, usize)>|
                    #[trigger] crate::generator::generator_post(a.generator, a.rooms@, conns)
                        && crate::strategy::plan_post(a.strategy, a.tunneler, a.rooms@, conns, a.paths@);
                assert(a.rooms@.len() == expected_rooms(a.generator));
            }
            // each final area is its freshly generated layout, moved whole
            assert forall|i: int| 0 <= i < self.areas@.len()
                implies generated_then_placed(#[trigger] self.areas@[i]) by {
                assert(area_generated(regrown@[i]));
                assert(self.areas@[i] == placed_areas[i]);
                assert(crate::area::is_translated_copy(self.areas@[i], regrown@[i]));
            }
            assert forall|i: int| 0 <= i < regrown@.len()
                implies placed_at(regrown@, self.row_count as int, #[trigger] self.areas@[i], i) by {
                assert(self.areas@[i] == placed_areas[i]);
                assert(placed_at(regrown@, self.row_count as int, placed_areas[i], i));
            }
            assert(pipeline_post(old(self).areas@, self.row_count as int, self.areas@, regrown@));
        }
        GenerateOutcome::Success
    }

    /// The componentwise maximum over all occupied tiles, for sizing a raster
    /// of the map.  Meaningless before `generate`.
    pub fn get_dim(&self) -> (r: Vector2Int)
        requires
            self.tiles@.len() >= 1,
        ensures
            forall|i: int| 0 <= i < self.tiles@.len()
                ==> (#[trigger] self.tiles@[i]).x <= r.x && self.tiles@[i].y <= r.y,
            exists|i: int| 0 <= i < self.tiles@.len() && (#[trigger] self.tiles@[i]).x == r.x,
            exists|i: int| 0 <= i < self.tiles@.len() && (#[trigger] self.tiles@[i]).y == r.y,
    {
        let first = self.tiles[0];
        let mut mx: i32 = first.x;
        let mut my: i32 = first.y;
        let mut i: usize = 1;
        while i < self.tiles.len()
            invariant
                1 <= i <= self.tiles@.len(),
                forall|j: int| 0 <= j < i
                    ==> (#[trigger] self.tiles@[j]).x <= mx && self.tiles@[j].y <= my,
                exists|j: int| 0 <= j < i && (#[trigger] self.tiles@[j]).x == mx,
                exists|j: int| 0 <= j < i && (#[trigger] self.tiles@[j]).y == my,
            decreases self.tiles@.len() - i,
        {
            let t = self.tiles[i];
            if t.x > mx {
                mx = t.x;
            }
            if t.y > my {
                my = t.y;
            }
            i = i + 1;
        }
        Vector2Int::new(mx, my)
    }
}

/// Appending one element grows the element set by exactly that element.
proof fn lemma_to_set_push(s: Seq<Vector2Int>, v: Vector2Int)
    ensures
        s.push(v).to_set() == s.to_set().insert(v),
{
    assert forall|p: Vector2Int| s.push(v).to_set().contains(p)
        implies s.to_set().insert(v).contains(p) by {
        let i = choose|i: int| 0 <= i < s.push(v).len() && s.push(v)[i] == p;
        if i < s.len() {
            assert(s[i] == p);
            assert(s.to_set().contains(p));
        }
    }
    assert forall|p: Vector2Int| s.to_set().insert(v).contains(p)
        implies s.push(v).to_set().contains(p) by {
        if p == v {
            assert(s.push(v)[s.len() as int] == p);
        } else {
            let i = choose|i: int| 0 <= i < s.len() && s[i] == p;
            assert(s.push(v)[i] == p);
        }
    }
    assert(s.push(v).to_set() =~= s.to_set().insert(v));
}

/// Adds a tile unless it is already present, keeping the list
/// duplicate-free: the tile list stays a faithful set.
fn insert_tile(tiles: &mut Vec<Vector2Int>, t: Vector2Int)
    requires
        tiles_distinct(old(tiles)@),
    ensures
        tiles_distinct(final(tiles)@),
        final(tiles)@.to_set() == old(tiles)@.to_set().insert(t),
{
    let mut i: usize = 0;
    while i < tiles.len()
        invariant
            i <= tiles@.len(),
            tiles@ == old(tiles)@,
            tiles_distinct(old(tiles)@),
            forall|j: int| 0 <= j < i ==> tiles@[j] != t,
        decreases tiles@.len() - i,
    {
        if tiles[i].x == t.x && tiles[i].y == t.y {
            proof {
                assert(tiles@[i as int] == t);
                assert(tiles@.to_set().contains(t));
                assert(tiles@.to_set() =~= tiles@.to_set().insert(t));
            }
            return;
        }
        i = i + 1;
    }
    proof {
        lemma_to_set_push(tiles@, t);
        assert forall|j: int, k: int| 0 <= j < k < tiles@.push(t).len()
            implies tiles@.push(t)[j] != tiles@.push(t)[k] by {
            if k == tiles@.len() {
                assert(tiles@.push(t)[j] == tiles@[j]);
            }
        }
    }
    tiles.push(t);
}

/// Adds every listed tile to the tile set.
fn insert_all(tiles: &mut Vec<Vector2Int>, pts: &Vec<Vector2Int>)
    requires
        tiles_distinct(old(tiles)@),
    ensures
        tiles_distinct(final(tiles)@),
        final(tiles)@.to_set() == old(tiles)@.to_set().union(pts@.to_set()),
{
    let mut i: usize = 0;
    while i < pts.len()
        invariant
            i <= pts@.len(),
            tiles_distinct(tiles@),
            tiles@.to_set() == old(tiles)@.to_set().union(pts@.subrange(0, i as int).to_set()),
        decreases pts@.len() - i,
    {
        let ghost before = tiles@;
        insert_tile(tiles, pts[i]);
        proof {
            let pre = pts@.subrange(0, i as int);
            let cur = pts@.subrange(0, i + 1);
            assert(cur =~= pre.push(pts@[i as int]));
            lemma_to_set_push(pre, pts@[i as int]);
            assert(tiles@.to_set() =~= old(tiles)@.to_set().union(cur.to_set()));
        }
        i = i + 1;
    }
    proof {
        assert(pts@.subrange(0, pts@.len() as int) =~= pts@);
    }
}

/// The tiles of the first `n` rooms.
pub open spec fn rooms_tiles_upto(rooms: Seq<Room>, n: int) -> Set<Vector2Int> {
    Set::new(|p: Vector2Int| exists|i: int| 0 <= i < n && i < rooms.len() && in_room(#[trigger] rooms[i], p))
}

/// The tiles of the first `n` corridors.
pub open spec fn paths_tiles_upto(paths: Seq<Vec<Vector2Int>>, n: int) -> Set<Vector2Int> {
    Set::new(|p: Vector2Int| exists|k: int, t: int|
        0 <= k < n && k < paths.len() && 0 <= t < paths[k]@.len() && #[trigger] paths[k]@[t] == p)
}

/// The tiles of the first `n` areas.
pub open spec fn area_tiles_upto(areas: Seq<Area>, n: int) -> Set<Vector2Int> {
    Set::new(|p: Vector2Int| exists|i: int|
        0 <= i < n && i < areas.len() && (#[trigger] area_tiles(areas[i])).contains(p))
}

/// Flattens one area into the tile set: all its rooms' tiles and all its
/// corridors' tiles.
fn write_area(tiles: &mut Vec<Vector2Int>, area: &Area)
    requires
        tiles_distinct(old(tiles)@),
        rooms_ok(area.rooms@),
    ensures
        tiles_distinct(final(tiles)@),
        final(tiles)@.to_set() == old(tiles)@.to_set().union(area_tiles(*area)),
{
    let mut ri: usize = 0;
    while ri < area.rooms.len()
        invariant
            ri <= area.rooms@.len(),
            rooms_ok(area.rooms@),
            tiles_distinct(tiles@),
            tiles@.to_set() == old(tiles)@.to_set().union(rooms_tiles_upto(area.rooms@, ri as int)),
        decreases area.rooms@.len() - ri,
    {
        let room_tiles_vec = area.rooms[ri].get_tiles();
        let ghost before = tiles@.to_set();
        insert_all(tiles, &room_tiles_vec);
        proof {
            assert(room_tiles_vec@.to_set() == crate::room::room_tiles(area.rooms@[ri as int]));
            assert forall|p: Vector2Int|
                tiles@.to_set().contains(p)
                implies old(tiles)@.to_set().union(rooms_tiles_upto(area.rooms@, ri + 1)).contains(p) by {
                if !old(tiles)@.to_set().contains(p) {
                    if rooms_tiles_upto(area.rooms@, ri as int).contains(p) {
                        let i = choose|i: int| 0 <= i < ri && i < area.rooms@.len()
                            && in_room(#[trigger] area.rooms@[i], p);
                        assert(in_room(area.rooms@[i], p));
                    } else {
                        assert(in_room(area.rooms@[ri as int], p));
                    }
                }
            }
            assert forall|p: Vector2Int|
                old(tiles)@.to_set().union(rooms_tiles_upto(area.rooms@, ri + 1)).contains(p)
                implies tiles@.to_set().contains(p) by {
                if rooms_tiles_upto(area.rooms@, ri + 1).contains(p) {
                    let i = choose|i: int| 0 <= i < ri + 1 && i < area.rooms@.len()
                        && in_room(#[trigger] area.rooms@[i], p);
                    if i < ri {
                        assert(rooms_tiles_upto(area.rooms@, ri as int).contains(p));
                    } else {
                        assert(crate::room::room_tiles(area.rooms@[ri as int]).contains(p));
                        assert(room_tiles_vec@.to_set().contains(p));
                    }
                }
            }
            assert(tiles@.to_set() =~= old(tiles)@.to_set().union(rooms_tiles_upto(area.rooms@, ri + 1)));
        }
        ri = ri + 1;
    }
    let ghost rooms_part = rooms_tiles_upto(area.rooms@, area.rooms@.len() as int);
    let mut k: usize = 0;
    while k < area.paths.len()
        invariant
            k <= area.paths@.len(),
            rooms_ok(area.rooms@),
            tiles_distinct(tiles@),
            rooms_part == rooms_tiles_upto(area.rooms@, area.rooms@.len() as int),
            tiles@.to_set() == old(tiles)@.to_set().union(rooms_part)
                .union(paths_tiles_upto(area.paths@, k as int)),
        decreases area.paths@.len() - k,
    {
        insert_all(tiles, &area.paths[k]);
        proof {
            let base = old(tiles)@.to_set().union(rooms_part);
            assert forall|p: Vector2Int|
                tiles@.to_set().contains(p)
                implies base.union(paths_tiles_upto(area.paths@, k + 1)).contains(p) by {
                if !base.contains(p) {
                    if paths_tiles_upto(area.paths@, k as int).contains(p) {
                    } else {
                        assert(area.paths@[k as int]@.to_set().contains(p));
                        let t = choose|t: int| 0 <= t < area.paths@[k as int]@.len()
                            && area.paths@[k as int]@[t] == p;
                        assert(area.paths@[k as int]@[t] == p);
                    }
                }
            }
            assert forall|p: Vector2Int|
                base.union(paths_tiles_upto(area.paths@, k + 1)).contains(p)
                implies tiles@.to_set().contains(p) by {
                if paths_tiles_upto(area.paths@, k + 1).contains(p) {
                    let (k0, t0) = choose|k0: int, t0: int|
                        0 <= k0 < k + 1 && k0 < area.paths@.len() && 0 <= t0 < area.paths@[k0]@.len()
                            && #[trigger] area.paths@[k0]@[t0] == p;
                    if k0 < k {
                        assert(paths_tiles_upto(area.paths@, k as int).contains(p));
                    } else {
                        assert(area.paths@[k as int]@[t0] == p);
                        assert(area.paths@[k as int]@.to_set().contains(p));
                    }
                }
            }
            assert(tiles@.to_set() =~= base.union(paths_tiles_upto(area.paths@, k + 1)));
        }
        k = k + 1;
    }
    proof {
        let full = old(tiles)@.to_set().union(rooms_part)
            .union(paths_tiles_upto(area.paths@, area.paths@.len() as int));
        assert forall|p: Vector2Int| full.contains(p)
            implies old(tiles)@.to_set().union(area_tiles(*area)).contains(p) by {
            if rooms_part.contains(p) {
                let i = choose|i: int| 0 <= i < area.rooms@.len()
                    && in_room(#[trigger] area.rooms@[i], p);
                assert(area_tiles(*area).contains(p));
            } else if paths_tiles_upto(area.paths@, area.paths@.len() as int).contains(p) {
                let (k0, t0) = choose|k0: int, t0: int|
                    0 <= k0 < area.paths@.len() && 0 <= t0 < area.paths@[k0]@.len()
                        && #[trigger] area.paths@[k0]@[t0] == p;
                assert(area_tiles(*area).contains(p));
            }
        }
        assert forall|p: Vector2Int| old(tiles)@.to_set().union(area_tiles(*area)).contains(p)
            implies full.contains(p) by {
            if area_tiles(*area).contains(p) && !old(tiles)@.to_set().contains(p) {
                if exists|i: int| 0 <= i < area.rooms@.len() && in_room(#[trigger] area.rooms@[i], p) {
                    assert(rooms_part.contains(p));
                } else {
                    let (k0, t0) = choose|k0: int, t0: int|
                        0 <= k0 < area.paths@.len() && 0 <= t0 < area.paths@[k0]@.len()
                            && #[trigger] area.paths@[k0]@[t0] == p;
                    assert(paths_tiles_upto(area.paths@, area.paths@.len() as int).contains(p));
                }
            }
        }
        assert(tiles@.to_set() =~= old(tiles)@.to_set().union(area_tiles(*area)));
    }
}

/// Cumulative offsets built from non-negative extents plus a positive gap
/// are strictly separated: an earlier cell ends before a later one starts.
proof fn lemma_offsets_ordered(offs: Seq<i32>, widths: Seq<i32>, c1: int, c2: int)
    requires
        offs.len() == widths.len(),
        0 <= c1 < c2 < offs.len(),
        forall|c: int| 0 <= c < offs.len() - 1
            ==> #[trigger] offs[c + 1] == offs[c] + widths[c] + GRID_SPACING,
        forall|c: int| 0 <= c < widths.len() ==> #[trigger] widths[c] >= 0,
    ensures
        offs[c1] + widths[c1] < offs[c2],
    decreases c2 - c1,
{
    assert(offs[c1 + 1] == offs[c1] + widths[c1] + GRID_SPACING);
    if c1 + 1 < c2 {
        lemma_offsets_ordered(offs, widths, c1 + 1, c2);
    }
}

/// Appending one corridor grows the corridors' tile union by exactly that
/// corridor's tiles.
proof fn lemma_joins_tiles_push(joins: Seq<Seq<Vector2Int>>, path: Seq<Vector2Int>)
    ensures
        joins_tiles(joins.push(path)) == joins_tiles(joins).union(path.to_set()),
{
    assert forall|p: Vector2Int| joins_tiles(joins.push(path)).contains(p)
        implies joins_tiles(joins).union(path.to_set()).contains(p) by {
        let (k, t) = choose|k: int, t: int|
            0 <= k < joins.push(path).len() && 0 <= t < joins.push(path)[k].len()
                && #[trigger] joins.push(path)[k][t] == p;
        if k < joins.len() {
            assert(joins[k][t] == p);
        } else {
            assert(path[t] == p);
            assert(path.to_set().contains(p));
        }
    }
    assert forall|p: Vector2Int| joins_tiles(joins).union(path.to_set()).contains(p)
        implies joins_tiles(joins.push(path)).contains(p) by {
        if joins_tiles(joins).contains(p) {
            let (k, t) = choose|k: int, t: int|
                0 <= k < joins.len() && 0 <= t < joins[k].len() && #[trigger] joins[k][t] == p;
            assert(joins.push(path)[k][t] == p);
        } else {
            let t = choose|t: int| 0 <= t < path.len() && path[t] == p;
            assert(joins.push(path)[joins.len() as int][t] == p);
        }
    }
    assert(joins_tiles(joins.push(path)) =~= joins_tiles(joins).union(path.to_set()));
}

} // verus!