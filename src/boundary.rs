use vstd::prelude::*;
use crate::geometry::{Point, Segment, TILE_WIDTH, pt, seg};
use crate::text::views;

verus! {

/// One side of a tile.
#[derive(Clone, Copy, Debug, PartialEq, Eq, Structural)]
pub enum Side {
    West,
    North,
    East,
    South,
}

/// A boundary run named by its first tile and the side it lies on.
pub type RunStart = (int, int, Side);

/// Position of a side in the order in which a tile's sides are handled.
pub open spec fn side_index(s: Side) -> int {
    match s {
        Side::West => 0,
        Side::North => 1,
        Side::East => 2,
        Side::South => 3,
    }
}

pub open spec fn side_at(k: int) -> Side {
    if k == 0 {
        Side::West
    } else if k == 1 {
        Side::North
    } else if k == 2 {
        Side::East
    } else {
        Side::South
    }
}

/// West and east edges run down a column; north and south edges run along a row.
pub open spec fn is_vertical(s: Side) -> bool {
    s == Side::West || s == Side::East
}

/// Whether tile `(x, y)` of the character rows is a wall; tiles off the grid are not.
pub open spec fn is_wall(rows: Seq<Seq<char>>, x: int, y: int) -> bool {
    0 <= y < rows.len() && 0 <= x < rows[y].len() && rows[y][x] == 'w'
}

pub open spec fn neighbor_x(x: int, s: Side) -> int {
    match s {
        Side::West => x - 1,
        Side::East => x + 1,
        _ => x,
    }
}

pub open spec fn neighbor_y(y: int, s: Side) -> int {
    match s {
        Side::North => y - 1,
        Side::South => y + 1,
        _ => y,
    }
}

/// A wall tile needs an edge on side `s` when the tile beyond that side is not a wall.
pub open spec fn needs_edge(rows: Seq<Seq<char>>, x: int, y: int, s: Side) -> bool {
    is_wall(rows, x, y) && !is_wall(rows, neighbor_x(x, s), neighbor_y(y, s))
}

/// The tile before `(x, y)` along a run of side `s`: north for vertical runs, west otherwise.
pub open spec fn prev_x(x: int, s: Side) -> int {
    if is_vertical(s) {
        x
    } else {
        x - 1
    }
}

pub open spec fn prev_y(y: int, s: Side) -> int {
    if is_vertical(s) {
        y - 1
    } else {
        y
    }
}

/// `(x, y)` needs an edge on side `s` and the tile before it along the run does not.
pub open spec fn starts_run(rows: Seq<Seq<char>>, x: int, y: int, s: Side) -> bool {
    needs_edge(rows, x, y, s) && !needs_edge(rows, prev_x(x, s), prev_y(y, s), s)
}

/// Number of consecutive tiles from `(x, y)` downwards that need an edge on side `s`.
pub open spec fn run_down(rows: Seq<Seq<char>>, x: int, y: int, s: Side) -> nat
    decreases rows.len() - y,
{
    if 0 <= y < rows.len() && needs_edge(rows, x, y, s) {
        1 + run_down(rows, x, y + 1, s)
    } else {
        0
    }
}

/// Number of consecutive tiles from `(x, y)` rightwards that need an edge on side `s`.
pub open spec fn run_right(rows: Seq<Seq<char>>, x: int, y: int, s: Side) -> nat
    decreases rows[y].len() - x,
{
    if 0 <= y < rows.len() && 0 <= x < rows[y].len() && needs_edge(rows, x, y, s) {
        1 + run_right(rows, x + 1, y, s)
    } else {
        0
    }
}

pub open spec fn run_len(rows: Seq<Seq<char>>, st: RunStart) -> nat {
    if is_vertical(st.2) {
        run_down(rows, st.0, st.1, st.2)
    } else {
        run_right(rows, st.0, st.1, st.2)
    }
}

/// The segment along side `s` of `len` tiles starting at tile `(x, y)`, oriented so
/// that its normal faces away from the wall.
pub open spec fn run_segment(s: Side, x: int, y: int, len: int) -> Segment {
    let t = TILE_WIDTH as int;
    match s {
        Side::West => seg(pt(x * t, (y + len) * t), pt(x * t, y * t)),
        Side::North => seg(pt(x * t, y * t), pt((x + len) * t, y * t)),
        Side::East => seg(pt((x + 1) * t, y * t), pt((x + 1) * t, (y + len) * t)),
        Side::South => seg(pt((x + len) * t, (y + 1) * t), pt(x * t, (y + 1) * t)),
    }
}

pub open spec fn side_runs(rows: Seq<Seq<char>>, x: int, y: int, s: Side) -> Seq<RunStart> {
    if starts_run(rows, x, y, s) {
        seq![(x, y, s)]
    } else {
        Seq::empty()
    }
}

/// The runs that start at tile `(x, y)` on its first `k` sides.
pub open spec fn cell_runs(rows: Seq<Seq<char>>, x: int, y: int, k: int) -> Seq<RunStart>
    decreases k,
{
    if k <= 0 {
        Seq::empty()
    } else {
        cell_runs(rows, x, y, k - 1) + side_runs(rows, x, y, side_at(k - 1))
    }
}

/// The runs that start in row `y` among its first `n` tiles, left to right.
pub open spec fn row_runs(rows: Seq<Seq<char>>, y: int, n: int) -> Seq<RunStart>
    decreases n,
{
    if n <= 0 {
        Seq::empty()
    } else {
        row_runs(rows, y, n - 1) + cell_runs(rows, n - 1, y, 4)
    }
}

/// The runs that start in the first `m` rows, top to bottom.
pub open spec fn grid_runs(rows: Seq<Seq<char>>, m: int) -> Seq<RunStart>
    decreases m,
{
    if m <= 0 {
        Seq::empty()
    } else {
        grid_runs(rows, m - 1) + row_runs(rows, m - 1, rows[m - 1].len() as int)
    }
}

/// The segment of a whole run.
pub open spec fn run_of(rows: Seq<Seq<char>>, st: RunStart) -> Segment {
    run_segment(st.2, st.0, st.1, run_len(rows, st) as int)
}

/// The wall boundary of a grid: one segment per maximal straight run of tile edges
/// between a wall and a non-wall, in the order in which the runs' first tiles are
/// met row by row and, within a tile, west, north, east, south.
pub open spec fn boundary(rows: Seq<Seq<char>>) -> Seq<Segment> {
    grid_runs(rows, rows.len() as int).map_values(|st: RunStart| run_of(rows, st))
}


/// The largest grid side that keeps every world coordinate well inside an `i64`.
pub const MAX_GRID_SIDE: u64 = 1_000_000_000_000;

/// No row, and not the number of rows, exceeds `MAX_GRID_SIDE`.
pub open spec fn grid_fits(rows: Seq<Seq<char>>) -> bool {
    &&& rows.len() <= MAX_GRID_SIDE
    &&& forall|y: int| 0 <= y < rows.len() ==> #[trigger] rows[y].len() <= MAX_GRID_SIDE
}

// ---- run lemmas ----

pub(crate) proof fn lemma_run_down_needs(rows: Seq<Seq<char>>, x: int, y: int, s: Side, j: int)
    requires
        0 <= j < run_down(rows, x, y, s),
    ensures
        needs_edge(rows, x, y + j, s),
    decreases j,
{
    if j > 0 {
        lemma_run_down_needs(rows, x, y + 1, s, j - 1);
    }
}

proof fn lemma_run_down_extend(rows: Seq<Seq<char>>, x: int, y: int, s: Side, j: int)
    requires
        0 <= j < run_down(rows, x, y, s),
        needs_edge(rows, x, y + j + 1, s),
    ensures
        j + 1 < run_down(rows, x, y, s),
    decreases j,
{
    if j > 0 {
        lemma_run_down_extend(rows, x, y + 1, s, j - 1);
    } else {
        assert(run_down(rows, x, y + 1, s) >= 1);
    }
}

pub(crate) proof fn lemma_run_down_bound(rows: Seq<Seq<char>>, x: int, y: int, s: Side)
    requires
        0 <= y,
    ensures
        y <= rows.len() ==> run_down(rows, x, y, s) <= rows.len() - y,
        y > rows.len() ==> run_down(rows, x, y, s) == 0,
    decreases rows.len() - y,
{
    if 0 <= y < rows.len() && needs_edge(rows, x, y, s) {
        lemma_run_down_bound(rows, x, y + 1, s);
    }
}

pub(crate) proof fn lemma_run_right_needs(rows: Seq<Seq<char>>, x: int, y: int, s: Side, j: int)
    requires
        0 <= j < run_right(rows, x, y, s),
    ensures
        needs_edge(rows, x + j, y, s),
    decreases j,
{
    if j > 0 {
        lemma_run_right_needs(rows, x + 1, y, s, j - 1);
    }
}

proof fn lemma_run_right_extend(rows: Seq<Seq<char>>, x: int, y: int, s: Side, j: int)
    requires
        0 <= j < run_right(rows, x, y, s),
        needs_edge(rows, x + j + 1, y, s),
    ensures
        j + 1 < run_right(rows, x, y, s),
    decreases j,
{
    if j > 0 {
        lemma_run_right_extend(rows, x + 1, y, s, j - 1);
    } else {
        assert(run_right(rows, x + 1, y, s) >= 1);
    }
}

pub(crate) proof fn lemma_run_right_bound(rows: Seq<Seq<char>>, x: int, y: int, s: Side)
    requires
        0 <= x,
        0 <= y < rows.len(),
    ensures
        x <= rows[y].len() ==> run_right(rows, x, y, s) <= rows[y].len() - x,
        x > rows[y].len() ==> run_right(rows, x, y, s) == 0,
    decreases rows[y].len() - x,
{
    if 0 <= x < rows[y].len() && needs_edge(rows, x, y, s) {
        lemma_run_right_bound(rows, x + 1, y, s);
    }
}

// ---- the merge ----

/// For one wall tile, the index in the segment list of the edge on each side, if any.
#[derive(Clone, Copy)]
struct EdgeRefs {
    west: Option<usize>,
    north: Option<usize>,
    east: Option<usize>,
    south: Option<usize>,
}

spec fn ref_of(e: EdgeRefs, s: Side) -> Option<usize> {
    match s {
        Side::West => e.west,
        Side::North => e.north,
        Side::East => e.east,
        Side::South => e.south,
    }
}

impl EdgeRefs {
    fn empty() -> (r: EdgeRefs)
        ensures
            r.west is None && r.north is None && r.east is None && r.south is None,
    {
        EdgeRefs { west: None, north: None, east: None, south: None }
    }

    fn get(&self, s: Side) -> (r: Option<usize>)
        ensures
            r == ref_of(*self, s),
    {
        match s {
            Side::West => self.west,
            Side::North => self.north,
            Side::East => self.east,
            Side::South => self.south,
        }
    }

    fn set(&mut self, s: Side, v: Option<usize>)
        ensures
            ref_of(*final(self), s) == v,
            forall|o: Side| o != s ==> ref_of(*final(self), o) == ref_of(*old(self), o),
    {
        match s {
            Side::West => self.west = v,
            Side::North => self.north = v,
            Side::East => self.east = v,
            Side::South => self.south = v,
        }
    }
}

/// Tile `(x, y)` lies on the run that starts at `st`.
spec fn in_run(rows: Seq<Seq<char>>, st: RunStart, x: int, y: int, s: Side) -> bool {
    &&& st.2 == s
    &&& if is_vertical(s) {
        st.0 == x && st.1 <= y && y - st.1 < run_down(rows, x, st.1, s)
    } else {
        st.1 == y && st.0 <= x && x - st.0 < run_right(rows, st.0, y, s)
    }
}

/// The scan, standing at side `k` of tile `(x, y)`, has already handled side `st.2` of `st`.
spec fn before(st: RunStart, x: int, y: int, k: int) -> bool {
    st.1 < y || (st.1 == y && (st.0 < x || (st.0 == x && side_index(st.2) < k)))
}

/// How many tiles of the run starting at `st` the scan has handled.
spec fn done_count(rows: Seq<Seq<char>>, st: RunStart, x: int, y: int, k: int) -> int {
    let n = run_len(rows, st) as int;
    let seen = if is_vertical(st.2) {
        y - st.1 + (if st.0 < x || (st.0 == x && side_index(st.2) < k) {
            1int
        } else {
            0int
        })
    } else if st.1 < y {
        n
    } else {
        x - st.0 + (if side_index(st.2) < k {
            1int
        } else {
            0int
        })
    };
    if seen < n {
        seen
    } else {
        n
    }
}

spec fn ref_ok(rows: Seq<Seq<char>>, starts: Seq<RunStart>, r: Option<usize>, x: int, y: int, s: Side) -> bool {
    &&& (r is Some <==> needs_edge(rows, x, y, s))
    &&& (r is Some ==> r->0 < starts.len() && in_run(rows, starts[r->0 as int], x, y, s))
}

spec fn slot_ok(rows: Seq<Seq<char>>, starts: Seq<RunStart>, e: EdgeRefs, x: int, y: int, k: int, s: Side) -> bool {
    if side_index(s) < k {
        ref_ok(rows, starts, ref_of(e, s), x, y, s)
    } else {
        ref_of(e, s) is None
    }
}

spec fn refs_ok(rows: Seq<Seq<char>>, starts: Seq<RunStart>, e: EdgeRefs, x: int, y: int, k: int) -> bool {
    &&& slot_ok(rows, starts, e, x, y, k, Side::West)
    &&& slot_ok(rows, starts, e, x, y, k, Side::North)
    &&& slot_ok(rows, starts, e, x, y, k, Side::East)
    &&& slot_ok(rows, starts, e, x, y, k, Side::South)
}

spec fn segs_ok(rows: Seq<Seq<char>>, segs: Seq<Segment>, starts: Seq<RunStart>, x: int, y: int, k: int) -> bool {
    &&& segs.len() == starts.len()
    &&& forall|i: int| 0 <= i < starts.len() ==> #[trigger] segs[i] == run_segment(
        starts[i].2,
        starts[i].0,
        starts[i].1,
        done_count(rows, starts[i], x, y, k),
    )
    &&& forall|i: int| 0 <= i < starts.len() ==> starts_run(rows, (#[trigger] starts[i]).0, starts[i].1, starts[i].2)
        && before(starts[i], x, y, k)
    &&& starts.no_duplicates()
}

spec fn merge_inv(
    rows: Seq<Seq<char>>,
    refs: Seq<Vec<EdgeRefs>>,
    row: Seq<EdgeRefs>,
    cell: EdgeRefs,
    segs: Seq<Segment>,
    starts: Seq<RunStart>,
    x: int,
    y: int,
    k: int,
) -> bool {
    &&& grid_fits(rows)
    &&& 0 <= y <= rows.len()
    &&& 0 <= x
    &&& (y < rows.len() ==> x <= rows[y].len())
    &&& (y == rows.len() ==> x == 0)
    &&& 0 <= k <= 4
    &&& starts == grid_runs(rows, y) + row_runs(rows, y, x) + cell_runs(rows, x, y, k)
    &&& segs_ok(rows, segs, starts, x, y, k)
    &&& refs.len() == y
    &&& forall|j: int| 0 <= j < y ==> (#[trigger] refs[j])@.len() == rows[j].len()
    &&& forall|j: int, i: int|
        0 <= j < y && 0 <= i < refs[j]@.len() ==> refs_ok(rows, starts, #[trigger] refs[j]@[i], i, j, 4)
    &&& row.len() == x
    &&& forall|i: int| 0 <= i < x ==> refs_ok(rows, starts, #[trigger] row[i], i, y, 4)
    &&& refs_ok(rows, starts, cell, x, y, k)
}


proof fn lemma_side_at_index(s: Side)
    ensures
        side_at(side_index(s)) == s,
        0 <= side_index(s) < 4,
{
}

/// Two run starts whose runs share a tile are the same.
proof fn lemma_run_start_unique(rows: Seq<Seq<char>>, a: RunStart, b: RunStart, x: int, y: int, s: Side)
    requires
        starts_run(rows, a.0, a.1, a.2),
        starts_run(rows, b.0, b.1, b.2),
        in_run(rows, a, x, y, s),
        in_run(rows, b, x, y, s),
    ensures
        a == b,
{
    if is_vertical(s) {
        if a.1 < b.1 {
            lemma_run_down_needs(rows, x, a.1, s, b.1 - 1 - a.1);
        } else if b.1 < a.1 {
            lemma_run_down_needs(rows, x, b.1, s, a.1 - 1 - b.1);
        }
    } else {
        if a.0 < b.0 {
            lemma_run_right_needs(rows, a.0, y, s, b.0 - 1 - a.0);
        } else if b.0 < a.0 {
            lemma_run_right_needs(rows, b.0, y, s, a.0 - 1 - b.0);
        }
    }
}

/// A run that does not pass through the tile being handled keeps its handled length.
proof fn lemma_count_stable(rows: Seq<Seq<char>>, st: RunStart, x: int, y: int, k: int)
    requires
        0 <= k < 4,
        before(st, x, y, k),
        starts_run(rows, st.0, st.1, st.2),
        !in_run(rows, st, x, y, side_at(k)),
    ensures
        done_count(rows, st, x, y, k) == done_count(rows, st, x, y, k + 1),
        before(st, x, y, k + 1),
{
    lemma_side_at_index(st.2);
}

proof fn lemma_refs_grow(rows: Seq<Seq<char>>, s1: Seq<RunStart>, v: RunStart, e: EdgeRefs, x: int, y: int, k: int)
    requires
        refs_ok(rows, s1, e, x, y, k),
    ensures
        refs_ok(rows, s1.push(v), e, x, y, k),
{
    let s2 = s1.push(v);
    assert(forall|i: int| 0 <= i < s1.len() ==> s2[i] == s1[i]);
}

fn wall_at(rows: &Vec<Vec<char>>, x: usize, y: usize) -> (r: bool)
    ensures
        r == is_wall(views(rows@), x as int, y as int),
{
    y < rows.len() && x < rows[y].len() && rows[y][x] == 'w'
}

fn edge_needed(rows: &Vec<Vec<char>>, x: usize, y: usize, side: Side) -> (r: bool)
    requires
        y < rows.len(),
        x < rows[y as int].len(),
        grid_fits(views(rows@)),
    ensures
        r == needs_edge(views(rows@), x as int, y as int, side),
{
    assert(views(rows@)[y as int] == rows[y as int]@);
    if !wall_at(rows, x, y) {
        return false;
    }
    let beyond = match side {
        Side::West => x > 0 && wall_at(rows, x - 1, y),
        Side::North => y > 0 && wall_at(rows, x, y - 1),
        Side::East => wall_at(rows, x + 1, y),
        Side::South => wall_at(rows, x, y + 1),
    };
    !beyond
}

spec fn set_ref(e: EdgeRefs, e2: EdgeRefs, s: Side, v: Option<usize>) -> bool {
    &&& ref_of(e2, s) == v
    &&& forall|o: Side| o != s ==> ref_of(e2, o) == ref_of(e, o)
}

proof fn lemma_cell_refs_step(
    r: Seq<Seq<char>>,
    starts: Seq<RunStart>,
    cell: EdgeRefs,
    cell2: EdgeRefs,
    x: int,
    y: int,
    k: int,
    v: Option<usize>,
)
    requires
        0 <= k < 4,
        refs_ok(r, starts, cell, x, y, k),
        set_ref(cell, cell2, side_at(k), v),
        ref_ok(r, starts, v, x, y, side_at(k)),
    ensures
        refs_ok(r, starts, cell2, x, y, k + 1),
{
    assert(ref_of(cell2, Side::West) == ref_of(cell, Side::West) || side_at(k) == Side::West);
    assert(ref_of(cell2, Side::North) == ref_of(cell, Side::North) || side_at(k) == Side::North);
    assert(ref_of(cell2, Side::East) == ref_of(cell, Side::East) || side_at(k) == Side::East);
    assert(ref_of(cell2, Side::South) == ref_of(cell, Side::South) || side_at(k) == Side::South);
}

proof fn lemma_skip_side(
    r: Seq<Seq<char>>,
    refs: Seq<Vec<EdgeRefs>>,
    row: Seq<EdgeRefs>,
    cell: EdgeRefs,
    segs: Seq<Segment>,
    starts: Seq<RunStart>,
    x: int,
    y: int,
    k: int,
)
    requires
        merge_inv(r, refs, row, cell, segs, starts, x, y, k),
        0 <= k < 4,
        y < r.len(),
        x < r[y].len(),
        !needs_edge(r, x, y, side_at(k)),
    ensures
        merge_inv(r, refs, row, cell, segs, starts, x, y, k + 1),
{
    let side = side_at(k);
    assert forall|i: int| 0 <= i < starts.len() implies done_count(r, starts[i], x, y, k) == done_count(r, starts[i], x, y, k + 1)
        && before(starts[i], x, y, k + 1) by {
        let st = starts[i];
        if in_run(r, st, x, y, side) {
            if is_vertical(side) {
                lemma_run_down_needs(r, x, st.1, side, y - st.1);
            } else {
                lemma_run_right_needs(r, st.0, y, side, x - st.0);
            }
        }
        lemma_count_stable(r, st, x, y, k);
    }
    assert(cell_runs(r, x, y, k + 1) =~= cell_runs(r, x, y, k));
}

proof fn lemma_extend_side(
    r: Seq<Seq<char>>,
    refs: Seq<Vec<EdgeRefs>>,
    row: Seq<EdgeRefs>,
    cell: EdgeRefs,
    cell2: EdgeRefs,
    segs: Seq<Segment>,
    starts: Seq<RunStart>,
    x: int,
    y: int,
    k: int,
    i: int,
)
    requires
        merge_inv(r, refs, row, cell, segs, starts, x, y, k),
        0 <= k < 4,
        y < r.len(),
        x < r[y].len(),
        needs_edge(r, x, y, side_at(k)),
        0 <= i < starts.len(),
        needs_edge(r, prev_x(x, side_at(k)), prev_y(y, side_at(k)), side_at(k)),
        in_run(r, starts[i], prev_x(x, side_at(k)), prev_y(y, side_at(k)), side_at(k)),
        i <= usize::MAX,
        set_ref(cell, cell2, side_at(k), Some(i as usize)),
    ensures
        in_run(r, starts[i], x, y, side_at(k)),
        done_count(r, starts[i], x, y, k) + 1 == done_count(r, starts[i], x, y, k + 1),
        done_count(r, starts[i], x, y, k + 1) <= run_len(r, starts[i]),
        merge_inv(
            r,
            refs,
            row,
            cell2,
            segs.update(i, run_segment(starts[i].2, starts[i].0, starts[i].1, done_count(r, starts[i], x, y, k + 1))),
            starts,
            x,
            y,
            k + 1,
        ),
{
    let side = side_at(k);
    let st = starts[i];
    let px = prev_x(x, side);
    let py = prev_y(y, side);
    if is_vertical(side) {
        lemma_run_down_extend(r, x, st.1, side, py - st.1);
    } else {
        lemma_run_right_extend(r, st.0, y, side, px - st.0);
    }
    assert(in_run(r, st, x, y, side));
    let segs2 = segs.update(i, run_segment(st.2, st.0, st.1, done_count(r, st, x, y, k + 1)));
    assert forall|j: int| 0 <= j < starts.len() implies #[trigger] segs2[j] == run_segment(
        starts[j].2,
        starts[j].0,
        starts[j].1,
        done_count(r, starts[j], x, y, k + 1),
    ) && before(starts[j], x, y, k + 1) by {
        if j != i {
            if in_run(r, starts[j], x, y, side) {
                lemma_run_start_unique(r, starts[j], st, x, y, side);
            }
            lemma_count_stable(r, starts[j], x, y, k);
        }
    }
    assert(!starts_run(r, x, y, side));
    assert(cell_runs(r, x, y, k + 1) =~= cell_runs(r, x, y, k));
    lemma_cell_refs_step(r, starts, cell, cell2, x, y, k, Some(i as usize));
    assert(segs_ok(r, segs2, starts, x, y, k + 1));
}

proof fn lemma_open_side(
    r: Seq<Seq<char>>,
    refs: Seq<Vec<EdgeRefs>>,
    row: Seq<EdgeRefs>,
    cell: EdgeRefs,
    cell2: EdgeRefs,
    segs: Seq<Segment>,
    starts: Seq<RunStart>,
    x: int,
    y: int,
    k: int,
)
    requires
        merge_inv(r, refs, row, cell, segs, starts, x, y, k),
        0 <= k < 4,
        y < r.len(),
        x < r[y].len(),
        starts_run(r, x, y, side_at(k)),
        segs.len() <= usize::MAX,
        set_ref(cell, cell2, side_at(k), Some(segs.len() as usize)),
    ensures
        merge_inv(
            r,
            refs,
            row,
            cell2,
            segs.push(run_segment(side_at(k), x, y, 1)),
            starts.push((x, y, side_at(k))),
            x,
            y,
            k + 1,
        ),
{
    let side = side_at(k);
    let st: RunStart = (x, y, side);
    let ns = starts.push(st);
    let segs2 = segs.push(run_segment(side, x, y, 1));
    if is_vertical(side) {
        assert(run_down(r, x, y + 1, side) >= 0);
    } else {
        assert(run_right(r, x + 1, y, side) >= 0);
    }
    lemma_side_at_index(side);
    assert(done_count(r, st, x, y, k + 1) == 1);
    assert forall|j: int| 0 <= j < ns.len() implies #[trigger] segs2[j] == run_segment(
        ns[j].2,
        ns[j].0,
        ns[j].1,
        done_count(r, ns[j], x, y, k + 1),
    ) && before(ns[j], x, y, k + 1) && starts_run(r, ns[j].0, ns[j].1, ns[j].2) by {
        if j < starts.len() {
            assert(ns[j] == starts[j]);
            if in_run(r, starts[j], x, y, side) {
                lemma_run_start_unique(r, starts[j], st, x, y, side);
            }
            lemma_count_stable(r, starts[j], x, y, k);
        }
    }
    assert forall|a: int, b: int| 0 <= a < ns.len() && 0 <= b < ns.len() && a != b implies ns[a] != ns[b] by {
        if a < starts.len() && b < starts.len() {
            assert(starts[a] != starts[b]);
        } else if a < starts.len() {
            assert(before(starts[a], x, y, k));
        } else {
            assert(before(starts[b], x, y, k));
        }
    }
    assert(cell_runs(r, x, y, k + 1) =~= cell_runs(r, x, y, k).push(st));
    assert(ns =~= grid_runs(r, y) + row_runs(r, y, x) + cell_runs(r, x, y, k + 1));
    assert forall|j: int, i: int| 0 <= j < y && 0 <= i < refs[j]@.len() implies refs_ok(r, ns, #[trigger] refs[j]@[i], i, j, 4) by {
        lemma_refs_grow(r, starts, st, refs[j]@[i], i, j, 4);
    }
    assert forall|i: int| 0 <= i < x implies refs_ok(r, ns, #[trigger] row[i], i, y, 4) by {
        lemma_refs_grow(r, starts, st, row[i], i, y, 4);
    }
    lemma_refs_grow(r, starts, st, cell, x, y, k);
    lemma_cell_refs_step(r, ns, cell, cell2, x, y, k, Some(segs.len() as usize));
    assert(segs_ok(r, segs2, ns, x, y, k + 1));
}

/// Handles side `side` of tile `(x, y)`: nothing if it needs no edge, else extends the
/// run of the tile before it along that side, or opens a new one-tile run.
fn add_side(
    rows: &Vec<Vec<char>>,
    refs: &Vec<Vec<EdgeRefs>>,
    row: &Vec<EdgeRefs>,
    cell: &mut EdgeRefs,
    segs: &mut Vec<Segment>,
    x: usize,
    y: usize,
    side: Side,
    Ghost(starts): Ghost<Seq<RunStart>>,
) -> (out: Ghost<Seq<RunStart>>)
    requires
        merge_inv(views(rows@), refs@, row@, *old(cell), old(segs)@, starts, x as int, y as int, side_index(side)),
        y < rows.len(),
        x < rows[y as int].len(),
    ensures
        merge_inv(views(rows@), refs@, row@, *final(cell), final(segs)@, out@, x as int, y as int, side_index(side) + 1),
{
    let ghost r = views(rows@);
    let ghost k = side_index(side);
    let ghost xi = x as int;
    let ghost yi = y as int;
    proof {
        lemma_side_at_index(side);
        assert(r[yi] == rows[yi]@);
    }
    if !edge_needed(rows, x, y, side) {
        proof {
            lemma_skip_side(r, refs@, row@, *cell, segs@, starts, xi, yi, k);
        }
        return Ghost(starts);
    }
    let vertical = side == Side::West || side == Side::East;
    let prev: Option<usize> = if vertical {
        if y > 0 && x < refs[y - 1].len() {
            refs[y - 1][x].get(side)
        } else {
            None
        }
    } else {
        if x > 0 {
            row[x - 1].get(side)
        } else {
            None
        }
    };
    proof {
        if vertical {
            if y > 0 && xi < refs[yi - 1]@.len() {
                assert(refs_ok(r, starts, refs[yi - 1]@[xi], xi, yi - 1, 4));
            }
        } else if x > 0 {
            assert(refs_ok(r, starts, row@[xi - 1], xi - 1, yi, 4));
        }
    }
    assert(prev is Some <==> needs_edge(r, prev_x(xi, side), prev_y(yi, side), side));
    let ghost old_cell = *cell;
    match prev {
        Some(i) => {
            let ghost st = starts[i as int];
            cell.set(side, Some(i));
            proof {
                lemma_extend_side(r, refs@, row@, old_cell, *cell, segs@, starts, xi, yi, k, i as int);
                lemma_run_down_bound(r, st.0, st.1, side);
                lemma_run_right_bound(r, st.0, st.1, side);
            }
            let old_seg = segs[i];
            let t = TILE_WIDTH;
            let new_seg = match side {
                Side::West => Segment {
                    begin: Point { x: old_seg.begin.x, y: old_seg.begin.y + t },
                    end: old_seg.end,
                    normal_reversed: old_seg.normal_reversed,
                },
                Side::North => Segment {
                    begin: old_seg.begin,
                    end: Point { x: old_seg.end.x + t, y: old_seg.end.y },
                    normal_reversed: old_seg.normal_reversed,
                },
                Side::East => Segment {
                    begin: old_seg.begin,
                    end: Point { x: old_seg.end.x, y: old_seg.end.y + t },
                    normal_reversed: old_seg.normal_reversed,
                },
                Side::South => Segment {
                    begin: Point { x: old_seg.begin.x + t, y: old_seg.begin.y },
                    end: old_seg.end,
                    normal_reversed: old_seg.normal_reversed,
                },
            };
            assert(new_seg == run_segment(side, st.0, st.1, done_count(r, st, xi, yi, k + 1)));
            segs.set(i, new_seg);
            Ghost(starts)
        },
        None => {
            let xw = x as i64;
            let yw = y as i64;
            let t = TILE_WIDTH;
            let new_seg = match side {
                Side::West => Segment::new(Point { x: xw * t, y: (yw + 1) * t }, Point { x: xw * t, y: yw * t }),
                Side::North => Segment::new(Point { x: xw * t, y: yw * t }, Point { x: (xw + 1) * t, y: yw * t }),
                Side::East => Segment::new(
                    Point { x: (xw + 1) * t, y: yw * t },
                    Point { x: (xw + 1) * t, y: (yw + 1) * t },
                ),
                Side::South => Segment::new(
                    Point { x: (xw + 1) * t, y: (yw + 1) * t },
                    Point { x: xw * t, y: (yw + 1) * t },
                ),
            };
            assert(new_seg == run_segment(side, xi, yi, 1));
            cell.set(side, Some(segs.len()));
            proof {
                lemma_open_side(r, refs@, row@, old_cell, *cell, segs@, starts, xi, yi, k);
            }
            segs.push(new_seg);
            Ghost(starts.push((xi, yi, side)))
        },
    }
}


spec fn no_refs() -> EdgeRefs {
    EdgeRefs { west: None, north: None, east: None, south: None }
}

proof fn lemma_next_cell(
    r: Seq<Seq<char>>,
    refs: Seq<Vec<EdgeRefs>>,
    row: Seq<EdgeRefs>,
    cell: EdgeRefs,
    segs: Seq<Segment>,
    starts: Seq<RunStart>,
    x: int,
    y: int,
)
    requires
        merge_inv(r, refs, row, cell, segs, starts, x, y, 4),
        y < r.len(),
        x < r[y].len(),
    ensures
        merge_inv(r, refs, row.push(cell), no_refs(), segs, starts, x + 1, y, 0),
{
    assert forall|i: int| 0 <= i < starts.len() implies done_count(r, starts[i], x, y, 4) == done_count(r, starts[i], x + 1, y, 0)
        && before(starts[i], x + 1, y, 0) by {
        lemma_side_at_index(starts[i].2);
    }
    assert(cell_runs(r, x + 1, y, 0) =~= Seq::<RunStart>::empty());
    assert(starts =~= grid_runs(r, y) + row_runs(r, y, x + 1) + cell_runs(r, x + 1, y, 0));
    let row2 = row.push(cell);
    assert forall|i: int| 0 <= i < x + 1 implies refs_ok(r, starts, #[trigger] row2[i], i, y, 4) by {
        if i < x {
            assert(row2[i] == row[i]);
        }
    }
    assert(segs_ok(r, segs, starts, x + 1, y, 0));
}

proof fn lemma_next_row(
    r: Seq<Seq<char>>,
    refs: Seq<Vec<EdgeRefs>>,
    row: Vec<EdgeRefs>,
    segs: Seq<Segment>,
    starts: Seq<RunStart>,
    y: int,
)
    requires
        merge_inv(r, refs, row@, no_refs(), segs, starts, r[y].len() as int, y, 0),
        y < r.len(),
    ensures
        merge_inv(r, refs.push(row), Seq::empty(), no_refs(), segs, starts, 0, y + 1, 0),
{
    let w = r[y].len() as int;
    assert forall|i: int| 0 <= i < starts.len() implies done_count(r, starts[i], w, y, 0) == done_count(r, starts[i], 0, y + 1, 0)
        && before(starts[i], 0, y + 1, 0) by {
        let st = starts[i];
        if is_vertical(st.2) {
            if st.0 >= w && run_down(r, st.0, st.1, st.2) > y - st.1 {
                lemma_run_down_needs(r, st.0, st.1, st.2, y - st.1);
            }
        } else if st.1 == y {
            lemma_run_right_bound(r, st.0, y, st.2);
        }
    }
    assert(row_runs(r, y + 1, 0) =~= Seq::<RunStart>::empty());
    assert(cell_runs(r, 0, y, 0) =~= Seq::<RunStart>::empty());
    assert(cell_runs(r, 0, y + 1, 0) =~= Seq::<RunStart>::empty());
    assert(starts =~= grid_runs(r, y + 1) + row_runs(r, y + 1, 0) + cell_runs(r, 0, y + 1, 0));
    let refs2 = refs.push(row);
    assert forall|j: int| 0 <= j < y + 1 implies (#[trigger] refs2[j])@.len() == r[j].len() by {
        if j < y {
            assert(refs2[j] == refs[j]);
        }
    }
    assert forall|j: int, i: int| 0 <= j < y + 1 && 0 <= i < refs2[j]@.len() implies refs_ok(r, starts, #[trigger] refs2[j]@[i], i, j, 4) by {
        if j < y {
            assert(refs2[j] == refs[j]);
        } else {
            assert(refs2[j]@ == row@);
        }
    }
    assert(segs_ok(r, segs, starts, 0, y + 1, 0));
}

proof fn lemma_merge_done(
    r: Seq<Seq<char>>,
    refs: Seq<Vec<EdgeRefs>>,
    segs: Seq<Segment>,
    starts: Seq<RunStart>,
)
    requires
        merge_inv(r, refs, Seq::empty(), no_refs(), segs, starts, 0, r.len() as int, 0),
    ensures
        segs == boundary(r),
{
    let n = r.len() as int;
    assert(row_runs(r, n, 0) =~= Seq::<RunStart>::empty());
    assert(cell_runs(r, 0, n, 0) =~= Seq::<RunStart>::empty());
    assert(starts =~= grid_runs(r, n));
    assert forall|i: int| 0 <= i < starts.len() implies done_count(r, starts[i], 0, n, 0) == run_len(r, starts[i]) by {
        let st = starts[i];
        if is_vertical(st.2) {
            lemma_run_down_bound(r, st.0, st.1, st.2);
        }
    }
    assert(segs =~= boundary(r));
}

/// Compiles the character rows of a grid into its merged wall boundary.
pub fn merge_boundary(rows: &Vec<Vec<char>>) -> (r: Vec<Segment>)
    requires
        grid_fits(views(rows@)),
    ensures
        r@ == boundary(views(rows@)),
{
    let ghost rv = views(rows@);
    let mut segs: Vec<Segment> = Vec::new();
    let mut refs: Vec<Vec<EdgeRefs>> = Vec::new();
    let ghost mut starts: Seq<RunStart> = Seq::empty();
    let mut y: usize = 0;
    proof {
        assert(grid_runs(rv, 0) =~= Seq::<RunStart>::empty());
        assert(row_runs(rv, 0, 0) =~= Seq::<RunStart>::empty());
        assert(cell_runs(rv, 0, 0, 0) =~= Seq::<RunStart>::empty());
        assert(starts =~= grid_runs(rv, 0) + row_runs(rv, 0, 0) + cell_runs(rv, 0, 0, 0));
    }
    while y < rows.len()
        invariant
            rv == views(rows@),
            y <= rows.len(),
            merge_inv(rv, refs@, Seq::empty(), no_refs(), segs@, starts, 0, y as int, 0),
        decreases rows.len() - y,
    {
        let mut row: Vec<EdgeRefs> = Vec::new();
        let mut x: usize = 0;
        proof {
            assert(rv[y as int] == rows[y as int]@);
            assert(row@ =~= Seq::<EdgeRefs>::empty());
        }
        while x < rows[y].len()
            invariant
                rv == views(rows@),
                y < rows.len(),
                x <= rows[y as int].len(),
                rv[y as int] == rows[y as int]@,
                merge_inv(rv, refs@, row@, no_refs(), segs@, starts, x as int, y as int, 0),
            decreases rows[y as int].len() - x,
        {
            let mut cell = EdgeRefs::empty();
            if rows[y][x] == 'w' {
                let g = add_side(rows, &refs, &row, &mut cell, &mut segs, x, y, Side::West, Ghost(starts));
                proof {
                    starts = g@;
                }
                let g = add_side(rows, &refs, &row, &mut cell, &mut segs, x, y, Side::North, Ghost(starts));
                proof {
                    starts = g@;
                }
                let g = add_side(rows, &refs, &row, &mut cell, &mut segs, x, y, Side::East, Ghost(starts));
                proof {
                    starts = g@;
                }
                let g = add_side(rows, &refs, &row, &mut cell, &mut segs, x, y, Side::South, Ghost(starts));
                proof {
                    starts = g@;
                }
            } else {
                proof {
                    let (xi, yi) = (x as int, y as int);
                    lemma_skip_side(rv, refs@, row@, cell, segs@, starts, xi, yi, 0);
                    lemma_skip_side(rv, refs@, row@, cell, segs@, starts, xi, yi, 1);
                    lemma_skip_side(rv, refs@, row@, cell, segs@, starts, xi, yi, 2);
                    lemma_skip_side(rv, refs@, row@, cell, segs@, starts, xi, yi, 3);
                }
            }
            proof {
                lemma_next_cell(rv, refs@, row@, cell, segs@, starts, x as int, y as int);
            }
            row.push(cell);
            x += 1;
        }
        proof {
            lemma_next_row(rv, refs@, row, segs@, starts, y as int);
        }
        refs.push(row);
        y += 1;
    }
    proof {
        lemma_merge_done(rv, refs@, segs@, starts);
    }
    segs
}

} // verus!
