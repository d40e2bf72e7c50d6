use vstd::prelude::*;
use crate::boundary::{
    MAX_GRID_SIDE, RunStart, Side, boundary, grid_fits, lemma_run_down_bound, lemma_run_down_needs, lemma_run_right_bound, lemma_run_right_needs, cell_runs, grid_runs, is_vertical, is_wall, neighbor_x, neighbor_y,
    row_runs, run_down, run_len, run_right, run_segment, side_at, side_index, starts_run,
};
use crate::geometry::Segment;
use crate::grid::compile;

verus! {

/// `a` comes before `b` in reading order of tiles, then in the order west, north, east, south.
pub open spec fn scan_lt(a: RunStart, b: RunStart) -> bool {
    a.1 < b.1 || (a.1 == b.1 && (a.0 < b.0 || (a.0 == b.0 && side_index(a.2) < side_index(b.2))))
}

pub open spec fn scan_sorted(s: Seq<RunStart>) -> bool {
    forall|i: int, j: int| 0 <= i < j < s.len() ==> scan_lt(s[i], s[j])
}

proof fn lemma_concat_sorted(a: Seq<RunStart>, b: Seq<RunStart>)
    requires
        scan_sorted(a),
        scan_sorted(b),
        forall|i: int, j: int| 0 <= i < a.len() && 0 <= j < b.len() ==> scan_lt(a[i], b[j]),
    ensures
        scan_sorted(a + b),
{
    let c = a + b;
    assert forall|i: int, j: int| 0 <= i < j < c.len() implies scan_lt(c[i], c[j]) by {
        if j < a.len() {
            assert(c[i] == a[i] && c[j] == a[j]);
        } else if i < a.len() {
            assert(c[i] == a[i] && c[j] == b[j - a.len()]);
        } else {
            assert(c[i] == b[i - a.len()] && c[j] == b[j - a.len()]);
        }
    }
}

proof fn lemma_cell_runs(rows: Seq<Seq<char>>, x: int, y: int, k: int)
    requires
        0 <= k <= 4,
    ensures
        scan_sorted(cell_runs(rows, x, y, k)),
        forall|i: int| 0 <= i < cell_runs(rows, x, y, k).len() ==> {
            let e = #[trigger] cell_runs(rows, x, y, k)[i];
            e.0 == x && e.1 == y && side_index(e.2) < k && starts_run(rows, e.0, e.1, e.2)
        },
        forall|s: Side| side_index(s) < k && #[trigger] starts_run(rows, x, y, s) ==> cell_runs(rows, x, y, k).contains(
            (x, y, s),
        ),
    decreases k,
{
    if k > 0 {
        lemma_cell_runs(rows, x, y, k - 1);
        let pre = cell_runs(rows, x, y, k - 1);
        let s = side_at(k - 1);
        let c = cell_runs(rows, x, y, k);
        if starts_run(rows, x, y, s) {
            assert(c == pre.push((x, y, s)));
            assert(c[c.len() - 1] == (x, y, s));
        } else {
            assert(c =~= pre);
        }
        assert forall|i: int| 0 <= i < c.len() implies {
            let e = #[trigger] c[i];
            e.0 == x && e.1 == y && side_index(e.2) < k && starts_run(rows, e.0, e.1, e.2)
        } by {
            if i < pre.len() {
                assert(c[i] == pre[i]);
            }
        }
        assert forall|i: int, j: int| 0 <= i < j < c.len() implies scan_lt(c[i], c[j]) by {
            assert(c[i] == pre[i]);
            if j < pre.len() {
                assert(c[j] == pre[j]);
            }
        }
        assert forall|t: Side| side_index(t) < k && #[trigger] starts_run(rows, x, y, t) implies c.contains((x, y, t)) by {
            if side_index(t) < k - 1 {
                let i = choose|i: int| 0 <= i < pre.len() && pre[i] == (x, y, t);
                assert(c[i] == pre[i]);
            } else {
                assert(t == s);
                assert(c[c.len() - 1] == (x, y, s));
            }
        }
    }
}

proof fn lemma_row_runs(rows: Seq<Seq<char>>, y: int, n: int)
    requires
        n >= 0,
    ensures
        scan_sorted(row_runs(rows, y, n)),
        forall|i: int| 0 <= i < row_runs(rows, y, n).len() ==> {
            let e = #[trigger] row_runs(rows, y, n)[i];
            e.1 == y && 0 <= e.0 < n && starts_run(rows, e.0, e.1, e.2)
        },
        forall|x: int, s: Side| 0 <= x < n && #[trigger] starts_run(rows, x, y, s) ==> row_runs(rows, y, n).contains(
            (x, y, s),
        ),
    decreases n,
{
    if n > 0 {
        lemma_row_runs(rows, y, n - 1);
        lemma_cell_runs(rows, n - 1, y, 4);
        let pre = row_runs(rows, y, n - 1);
        let cr = cell_runs(rows, n - 1, y, 4);
        let r = row_runs(rows, y, n);
        assert(r == pre + cr);
        lemma_concat_sorted(pre, cr);
        assert forall|i: int| 0 <= i < r.len() implies {
            let e = #[trigger] r[i];
            e.1 == y && 0 <= e.0 < n && starts_run(rows, e.0, e.1, e.2)
        } by {
            if i < pre.len() {
                assert(r[i] == pre[i]);
            } else {
                assert(r[i] == cr[i - pre.len()]);
            }
        }
        assert forall|x: int, s: Side| 0 <= x < n && #[trigger] starts_run(rows, x, y, s) implies r.contains((x, y, s)) by {
            lemma_side_bound(s);
            if x < n - 1 {
                let i = choose|i: int| 0 <= i < pre.len() && pre[i] == (x, y, s);
                assert(r[i] == pre[i]);
            } else {
                let i = choose|i: int| 0 <= i < cr.len() && cr[i] == (x, y, s);
                assert(r[pre.len() + i] == cr[i]);
            }
        }
    }
}

proof fn lemma_side_bound(s: Side)
    ensures
        0 <= side_index(s) < 4,
{
}

/// The runs listed in the first `m` rows are in scan order, each starts a run, and every
/// run that starts in those rows is listed.
pub proof fn lemma_grid_runs(rows: Seq<Seq<char>>, m: int)
    requires
        0 <= m <= rows.len(),
    ensures
        scan_sorted(grid_runs(rows, m)),
        grid_runs(rows, m).no_duplicates(),
        forall|i: int| 0 <= i < grid_runs(rows, m).len() ==> {
            let e = #[trigger] grid_runs(rows, m)[i];
            0 <= e.1 < m && starts_run(rows, e.0, e.1, e.2)
        },
        forall|x: int, y: int, s: Side| 0 <= y < m && #[trigger] starts_run(rows, x, y, s) ==> grid_runs(
            rows,
            m,
        ).contains((x, y, s)),
    decreases m,
{
    let g = grid_runs(rows, m);
    if m > 0 {
        lemma_grid_runs(rows, m - 1);
        let w = rows[m - 1].len() as int;
        lemma_row_runs(rows, m - 1, w);
        let pre = grid_runs(rows, m - 1);
        let rr = row_runs(rows, m - 1, w);
        assert(g == pre + rr);
        lemma_concat_sorted(pre, rr);
        assert forall|i: int| 0 <= i < g.len() implies {
            let e = #[trigger] g[i];
            0 <= e.1 < m && starts_run(rows, e.0, e.1, e.2)
        } by {
            if i < pre.len() {
                assert(g[i] == pre[i]);
            } else {
                assert(g[i] == rr[i - pre.len()]);
            }
        }
        assert forall|x: int, y: int, s: Side| 0 <= y < m && #[trigger] starts_run(rows, x, y, s) implies g.contains(
            (x, y, s),
        ) by {
            if y < m - 1 {
                let i = choose|i: int| 0 <= i < pre.len() && pre[i] == (x, y, s);
                assert(g[i] == pre[i]);
            } else {
                assert(0 <= x < w);
                let i = choose|i: int| 0 <= i < rr.len() && rr[i] == (x, y, s);
                assert(g[pre.len() + i] == rr[i]);
            }
        }
    }
    assert forall|i: int, j: int| 0 <= i < g.len() && 0 <= j < g.len() && i != j implies g[i] != g[j] by {
        if i < j {
            assert(scan_lt(g[i], g[j]));
        } else {
            assert(scan_lt(g[j], g[i]));
        }
    }
}

/// Tile `j` along the run that starts at `st`.
pub open spec fn run_tile_x(st: RunStart, j: int) -> int {
    if is_vertical(st.2) {
        st.0
    } else {
        st.0 + j
    }
}

pub open spec fn run_tile_y(st: RunStart, j: int) -> int {
    if is_vertical(st.2) {
        st.1 + j
    } else {
        st.1
    }
}

/// Every boundary segment covers one or more tile edges, and each of those edges has a
/// wall tile on one side and no wall on the other: no segment ever lies between two walls.
pub proof fn lemma_boundary_between_wall_and_open(rows: Seq<Seq<char>>)
    ensures
        forall|i: int| 0 <= i < boundary(rows).len() ==> {
            let st = grid_runs(rows, rows.len() as int)[i];
            &&& #[trigger] boundary(rows)[i] == run_segment(st.2, st.0, st.1, run_len(rows, st) as int)
            &&& run_len(rows, st) >= 1
            &&& forall|j: int| 0 <= j < run_len(rows, st) ==> {
                &&& is_wall(rows, #[trigger] run_tile_x(st, j), run_tile_y(st, j))
                &&& !is_wall(rows, neighbor_x(run_tile_x(st, j), st.2), neighbor_y(run_tile_y(st, j), st.2))
            }
        },
{
    let g = grid_runs(rows, rows.len() as int);
    lemma_grid_runs(rows, rows.len() as int);
    assert forall|i: int| 0 <= i < boundary(rows).len() implies {
        let st = g[i];
        &&& #[trigger] boundary(rows)[i] == run_segment(st.2, st.0, st.1, run_len(rows, st) as int)
        &&& run_len(rows, st) >= 1
        &&& forall|j: int| 0 <= j < run_len(rows, st) ==> {
            &&& is_wall(rows, #[trigger] run_tile_x(st, j), run_tile_y(st, j))
            &&& !is_wall(rows, neighbor_x(run_tile_x(st, j), st.2), neighbor_y(run_tile_y(st, j), st.2))
        }
    } by {
        let st = g[i];
        assert(starts_run(rows, st.0, st.1, st.2));
        if is_vertical(st.2) {
            assert(run_down(rows, st.0, st.1 + 1, st.2) >= 0);
        } else {
            assert(run_right(rows, st.0 + 1, st.1, st.2) >= 0);
        }
        assert forall|j: int| 0 <= j < run_len(rows, st) implies {
            &&& is_wall(rows, #[trigger] run_tile_x(st, j), run_tile_y(st, j))
            &&& !is_wall(rows, neighbor_x(run_tile_x(st, j), st.2), neighbor_y(run_tile_y(st, j), st.2))
        } by {
            if is_vertical(st.2) {
                lemma_run_down_needs(rows, st.0, st.1, st.2, j);
            } else {
                lemma_run_right_needs(rows, st.0, st.1, st.2, j);
            }
        }
    }
}

/// No two segments of the boundary are the same segment.
pub proof fn lemma_boundary_distinct(rows: Seq<Seq<char>>)
    requires
        grid_fits(rows),
    ensures
        boundary(rows).no_duplicates(),
{
    let g = grid_runs(rows, rows.len() as int);
    let b = boundary(rows);
    lemma_grid_runs(rows, rows.len() as int);
    lemma_boundary_between_wall_and_open(rows);
    assert forall|i: int, j: int| 0 <= i < b.len() && 0 <= j < b.len() && i != j implies b[i] != b[j] by {
        let p = g[i];
        let q = g[j];
        assert(starts_run(rows, p.0, p.1, p.2) && starts_run(rows, q.0, q.1, q.2));
        assert(b[i] == run_segment(p.2, p.0, p.1, run_len(rows, p) as int));
        assert(b[j] == run_segment(q.2, q.0, q.1, run_len(rows, q) as int));
        lemma_run_down_bound(rows, p.0, p.1, p.2);
        lemma_run_down_bound(rows, q.0, q.1, q.2);
        lemma_run_right_bound(rows, p.0, p.1, p.2);
        lemma_run_right_bound(rows, q.0, q.1, q.2);
        assert(rows[p.1].len() <= MAX_GRID_SIDE);
        assert(rows[q.1].len() <= MAX_GRID_SIDE);
        assert(p != q);
    }
}

/// Compiling a grid text depends on the text alone: two compilations of the same text
/// agree on the tiles, the boundary (as a list, hence as a multiset), the spawn point
/// and the objects, or fail with the same error.
pub proof fn lemma_compile_deterministic(a: Seq<char>, b: Seq<char>)
    requires
        a == b,
    ensures
        compile(a) == compile(b),
        compile(a) is Ok ==> compile(a)->Ok_0.collision.to_multiset() == compile(b)->Ok_0.collision.to_multiset(),
{
}


/// `rows` is a `w` by `h` block of walls with the rectangle of tiles
/// `x0 <= x < x1`, `y0 <= y < y1` carved out of it, strictly inside the outer wall.
pub open spec fn is_room_grid(rows: Seq<Seq<char>>, w: int, h: int, x0: int, y0: int, x1: int, y1: int) -> bool {
    &&& 1 <= x0 < x1 <= w - 1
    &&& 1 <= y0 < y1 <= h - 1
    &&& rows.len() == h
    &&& forall|y: int| 0 <= y < h ==> #[trigger] rows[y].len() == w
    &&& forall|x: int, y: int|
        0 <= x < w && 0 <= y < h ==> (#[trigger] rows[y][x] == 'w' <==> !(x0 <= x < x1 && y0 <= y < y1))
}

/// The runs of such a grid: the four sides of the outer block, then the four sides of the room.
pub open spec fn room_runs(w: int, h: int, x0: int, y0: int, x1: int, y1: int) -> Seq<RunStart> {
    seq![
        (0, 0, Side::West),
        (0, 0, Side::North),
        (w - 1, 0, Side::East),
        (0, h - 1, Side::South),
        (x0 - 1, y0, Side::East),
        (x0, y0 - 1, Side::South),
        (x1, y0, Side::West),
        (x0, y1, Side::North),
    ]
}

/// The eight segments of such a grid, in the order of `room_runs`.
pub open spec fn room_outline(w: int, h: int, x0: int, y0: int, x1: int, y1: int) -> Seq<Segment> {
    seq![
        run_segment(Side::West, 0, 0, h),
        run_segment(Side::North, 0, 0, w),
        run_segment(Side::East, w - 1, 0, h),
        run_segment(Side::South, 0, h - 1, w),
        run_segment(Side::East, x0 - 1, y0, y1 - y0),
        run_segment(Side::South, x0, y0 - 1, x1 - x0),
        run_segment(Side::West, x1, y0, y1 - y0),
        run_segment(Side::North, x0, y1, x1 - x0),
    ]
}

proof fn lemma_room_walls(rows: Seq<Seq<char>>, w: int, h: int, x0: int, y0: int, x1: int, y1: int)
    requires
        is_room_grid(rows, w, h, x0, y0, x1, y1),
    ensures
        forall|x: int, y: int| #[trigger] is_wall(rows, x, y) <==> (0 <= x < w && 0 <= y < h && !(x0 <= x < x1 && y0 <= y < y1)),
{
    assert forall|x: int, y: int| #[trigger] is_wall(rows, x, y) <==> (0 <= x < w && 0 <= y < h && !(x0 <= x < x1 && y0 <= y < y1)) by {
        if 0 <= x < w && 0 <= y < h {
            assert(rows[y].len() == w);
            assert(rows[y][x] == 'w' <==> !(x0 <= x < x1 && y0 <= y < y1));
        }
    }
}

proof fn lemma_room_starts(rows: Seq<Seq<char>>, w: int, h: int, x0: int, y0: int, x1: int, y1: int)
    requires
        is_room_grid(rows, w, h, x0, y0, x1, y1),
    ensures
        forall|x: int, y: int, s: Side| #[trigger] starts_run(rows, x, y, s) <==> room_runs(w, h, x0, y0, x1, y1).contains((x, y, s)),
{
    lemma_room_walls(rows, w, h, x0, y0, x1, y1);
    let e = room_runs(w, h, x0, y0, x1, y1);
    assert forall|x: int, y: int, s: Side| #[trigger] starts_run(rows, x, y, s) <==> e.contains((x, y, s)) by {
        if starts_run(rows, x, y, s) {
            if s == Side::West {
                if x == 0 {
                    assert(e[0] == (x, y, s));
                } else {
                    assert(e[6] == (x, y, s));
                }
            } else if s == Side::North {
                if y == 0 {
                    assert(e[1] == (x, y, s));
                } else {
                    assert(e[7] == (x, y, s));
                }
            } else if s == Side::East {
                if x == w - 1 {
                    assert(e[2] == (x, y, s));
                } else {
                    assert(e[4] == (x, y, s));
                }
            } else {
                if y == h - 1 {
                    assert(e[3] == (x, y, s));
                } else {
                    assert(e[5] == (x, y, s));
                }
            }
        }
        if e.contains((x, y, s)) {
            let i = choose|i: int| 0 <= i < e.len() && e[i] == (x, y, s);
            assert(0 <= i < 8);
        }
    }
}

spec fn down_needs(rows: Seq<Seq<char>>, x: int, y: int, s: Side, j: int) -> bool {
    crate::boundary::needs_edge(rows, x, y + j, s)
}

spec fn right_needs(rows: Seq<Seq<char>>, x: int, y: int, s: Side, j: int) -> bool {
    crate::boundary::needs_edge(rows, x + j, y, s)
}

proof fn lemma_run_down_exact(rows: Seq<Seq<char>>, x: int, y: int, s: Side, n: int)
    requires
        0 <= n,
        forall|j: int| 0 <= j < n ==> #[trigger] down_needs(rows, x, y, s, j),
        !down_needs(rows, x, y, s, n),
    ensures
        run_down(rows, x, y, s) == n,
    decreases n,
{
    if n > 0 {
        assert(down_needs(rows, x, y, s, 0));
        assert forall|j: int| 0 <= j < n - 1 implies #[trigger] down_needs(rows, x, y + 1, s, j) by {
            assert(down_needs(rows, x, y, s, j + 1));
        }
        assert(!down_needs(rows, x, y + 1, s, n - 1));
        lemma_run_down_exact(rows, x, y + 1, s, n - 1);
    }
}

proof fn lemma_run_right_exact(rows: Seq<Seq<char>>, x: int, y: int, s: Side, n: int)
    requires
        0 <= n,
        forall|j: int| 0 <= j < n ==> #[trigger] right_needs(rows, x, y, s, j),
        !right_needs(rows, x, y, s, n),
    ensures
        run_right(rows, x, y, s) == n,
    decreases n,
{
    if n > 0 {
        assert(right_needs(rows, x, y, s, 0));
        assert forall|j: int| 0 <= j < n - 1 implies #[trigger] right_needs(rows, x + 1, y, s, j) by {
            assert(right_needs(rows, x, y, s, j + 1));
        }
        assert(!right_needs(rows, x + 1, y, s, n - 1));
        lemma_run_right_exact(rows, x + 1, y, s, n - 1);
    }
}

proof fn lemma_room_lengths(rows: Seq<Seq<char>>, w: int, h: int, x0: int, y0: int, x1: int, y1: int)
    requires
        is_room_grid(rows, w, h, x0, y0, x1, y1),
    ensures
        forall|i: int| 0 <= i < 8 ==> run_of_is(rows, #[trigger] room_runs(w, h, x0, y0, x1, y1)[i], room_outline(w, h, x0, y0, x1, y1)[i]),
{
    lemma_room_walls(rows, w, h, x0, y0, x1, y1);
    let e = room_runs(w, h, x0, y0, x1, y1);
    lemma_run_down_exact(rows, 0, 0, Side::West, h);
    lemma_run_right_exact(rows, 0, 0, Side::North, w);
    lemma_run_down_exact(rows, w - 1, 0, Side::East, h);
    lemma_run_right_exact(rows, 0, h - 1, Side::South, w);
    lemma_run_down_exact(rows, x0 - 1, y0, Side::East, y1 - y0);
    lemma_run_right_exact(rows, x0, y0 - 1, Side::South, x1 - x0);
    lemma_run_down_exact(rows, x1, y0, Side::West, y1 - y0);
    lemma_run_right_exact(rows, x0, y1, Side::North, x1 - x0);
}

spec fn run_of_is(rows: Seq<Seq<char>>, st: RunStart, sg: Segment) -> bool {
    run_segment(st.2, st.0, st.1, run_len(rows, st) as int) == sg
}

/// A rectangular room carved into a block of walls compiles to exactly one segment per
/// side of the room and one per side of the block, however wide and tall either is.
pub proof fn lemma_room_outline(rows: Seq<Seq<char>>, w: int, h: int, x0: int, y0: int, x1: int, y1: int)
    requires
        is_room_grid(rows, w, h, x0, y0, x1, y1),
    ensures
        boundary(rows).len() == 8,
        forall|i: int| 0 <= i < 8 ==> boundary(rows).contains(#[trigger] room_outline(w, h, x0, y0, x1, y1)[i]),
{
    let e = room_runs(w, h, x0, y0, x1, y1);
    let g = grid_runs(rows, h);
    lemma_grid_runs(rows, h);
    lemma_room_starts(rows, w, h, x0, y0, x1, y1);
    lemma_room_lengths(rows, w, h, x0, y0, x1, y1);
    assert forall|st: RunStart| g.to_set().contains(st) <==> e.to_set().contains(st) by {
        if g.contains(st) {
            let i = choose|i: int| 0 <= i < g.len() && g[i] == st;
            assert(starts_run(rows, g[i].0, g[i].1, g[i].2));
        }
        if e.contains(st) {
            assert(starts_run(rows, st.0, st.1, st.2));
            lemma_room_walls(rows, w, h, x0, y0, x1, y1);
            assert(0 <= st.1 < h);
        }
    }
    assert(g.to_set() =~= e.to_set());
    assert(e.no_duplicates());
    g.unique_seq_to_set();
    e.unique_seq_to_set();
    assert(boundary(rows).len() == 8);
    assert forall|i: int| 0 <= i < 8 implies boundary(rows).contains(#[trigger] room_outline(w, h, x0, y0, x1, y1)[i]) by {
        assert(run_of_is(rows, e[i], room_outline(w, h, x0, y0, x1, y1)[i]));
        assert(starts_run(rows, e[i].0, e[i].1, e[i].2));
        lemma_room_walls(rows, w, h, x0, y0, x1, y1);
        let k = choose|k: int| 0 <= k < g.len() && g[k] == e[i];
        assert(boundary(rows)[k] == room_outline(w, h, x0, y0, x1, y1)[i]);
    }
}

} // verus!
