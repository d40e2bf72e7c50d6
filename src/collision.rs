use vstd::prelude::*;
use crate::boundary::MAX_GRID_SIDE;
use crate::geometry::{Point, Segment, TILE_WIDTH, pt, seg};
use crate::grid::{TileMap, TileType, entry, world};

verus! {

/// Bound on the coordinates of a viewpoint and on a screen size.
pub const COORD_LIMIT: i64 = 1_000_000_000_000_000;

/// The four edges of the tile-sized box with top-left corner `p`, clockwise from the top.
pub open spec fn box_edges(p: Point) -> Seq<Segment> {
    let t = TILE_WIDTH as int;
    let a = p;
    let b = pt(p.x + t, p.y as int);
    let c = pt(p.x + t, p.y + t);
    let d = pt(p.x as int, p.y + t);
    seq![seg(a, b), seg(b, c), seg(c, d), seg(d, a)]
}

/// Doors and spikes block light and movement while they stand.
pub open spec fn is_obstacle(t: Option<TileType>) -> bool {
    t == Some(TileType::Door) || t == Some(TileType::Spikes)
}

/// The box edges of the obstacles among the first `n` tiles of row `y`.
pub open spec fn row_obstacles(m: Seq<Seq<Option<TileType>>>, y: int, n: int) -> Seq<Segment>
    decreases n,
{
    if n <= 0 {
        Seq::empty()
    } else {
        row_obstacles(m, y, n - 1) + if is_obstacle(entry(m, n - 1, y)) {
            box_edges(world(n - 1, y))
        } else {
            Seq::empty()
        }
    }
}

/// The box edges of every obstacle of the first `k` rows, in reading order.
pub open spec fn obstacle_edges(m: Seq<Seq<Option<TileType>>>, k: int) -> Seq<Segment>
    decreases k,
{
    if k <= 0 {
        Seq::empty()
    } else {
        obstacle_edges(m, k - 1) + row_obstacles(m, k - 1, m[k - 1].len() as int)
    }
}

fn tile_box(p: Point) -> (r: Vec<Segment>)
    requires
        0 <= p.x <= MAX_GRID_SIDE * 28,
        0 <= p.y <= MAX_GRID_SIDE * 28,
    ensures
        r@ == box_edges(p),
{
    let t = TILE_WIDTH;
    let b = Point { x: p.x + t, y: p.y };
    let c = Point { x: p.x + t, y: p.y + t };
    let d = Point { x: p.x, y: p.y + t };
    let r = vec![Segment::new(p, b), Segment::new(b, c), Segment::new(c, d), Segment::new(d, p)];
    assert(r@ =~= box_edges(p));
    r
}

/// The box edges of every door and spike tile, in reading order.
pub fn obstacle_segments(tiles: &TileMap) -> (r: Vec<Segment>)
    ensures
        r@ == obstacle_edges(tiles@, tiles@.len() as int),
{
    let ghost m = tiles@;
    let mut out: Vec<Segment> = Vec::new();
    let h = tiles.height();
    let mut y: usize = 0;
    while y < h
        invariant
            m == tiles@,
            h == m.len(),
            h <= MAX_GRID_SIDE,
            y <= h,
            out@ == obstacle_edges(m, y as int),
        decreases h - y,
    {
        let w = tiles.width(y);
        let ghost base = out@;
        let mut x: usize = 0;
        assert(base + row_obstacles(m, y as int, 0) =~= base);
        while x < w
            invariant
                m == tiles@,
                h == m.len(),
                h <= MAX_GRID_SIDE,
                w <= MAX_GRID_SIDE,
                y < h,
                w == m[y as int].len(),
                x <= w,
                out@ == base + row_obstacles(m, y as int, x as int),
            decreases w - x,
        {
            let t = tiles.get(x as i64, y as i64);
            if t == Some(TileType::Door) || t == Some(TileType::Spikes) {
                let p = Point { x: (x as i64) * TILE_WIDTH, y: (y as i64) * TILE_WIDTH };
                assert(p == world(x as int, y as int));
                let edges = tile_box(p);
                let ghost before = out@;
                let mut i: usize = 0;
                while i < edges.len()
                    invariant
                        i <= edges.len(),
                        out@ == before + edges@.take(i as int),
                    decreases edges.len() - i,
                {
                    out.push(edges[i]);
                    assert(edges@.take(i + 1) =~= edges@.take(i as int).push(edges@[i as int]));
                    assert(out@ =~= before + edges@.take(i + 1));
                    i += 1;
                }
                assert(edges@.take(edges.len() as int) =~= edges@);
            }
            assert(out@ =~= base + row_obstacles(m, y as int, x + 1));
            x += 1;
        }
        y += 1;
    }
    out
}

/// The screen frame around `center`: four edges of a `screen`-sized rectangle centred
/// there, with reversed normals so that they block from the outside.
pub open spec fn frame_edges(center: Point, screen: Point) -> Seq<Segment> {
    let sx = center.x - screen.x / 2;
    let sy = center.y - screen.y / 2;
    let a = pt(sx, sy);
    let b = pt(sx + screen.x, sy);
    let c = pt(sx + screen.x, sy + screen.y);
    let d = pt(sx, sy + screen.y);
    seq![
        Segment { begin: a, end: b, normal_reversed: true },
        Segment { begin: b, end: c, normal_reversed: true },
        Segment { begin: c, end: d, normal_reversed: true },
        Segment { begin: d, end: a, normal_reversed: true },
    ]
}

pub open spec fn in_limits(center: Point, screen: Point) -> bool {
    &&& -COORD_LIMIT <= center.x <= COORD_LIMIT
    &&& -COORD_LIMIT <= center.y <= COORD_LIMIT
    &&& 0 <= screen.x <= COORD_LIMIT
    &&& 0 <= screen.y <= COORD_LIMIT
}

/// The screen frame around `center`, as `frame_edges` states.
pub fn frame_border(center: Point, screen: Point) -> (r: Vec<Segment>)
    requires
        in_limits(center, screen),
    ensures
        r@ == frame_edges(center, screen),
{
    let start = Point { x: center.x - screen.x / 2, y: center.y - screen.y / 2 };
    let b = Point { x: start.x + screen.x, y: start.y };
    let c = Point { x: start.x + screen.x, y: start.y + screen.y };
    let d = Point { x: start.x, y: start.y + screen.y };
    let r = vec![
        Segment::new(start, b).reverse_normal(),
        Segment::new(b, c).reverse_normal(),
        Segment::new(c, d).reverse_normal(),
        Segment::new(d, start).reverse_normal(),
    ];
    assert(r@ =~= frame_edges(center, screen));
    r
}

/// The blocking segments of one frame: the static boundary, then the screen frame
/// around `center`, then the boxes of the doors and spikes still on the map.
pub fn collision_set(walls: &Vec<Segment>, center: Point, screen: Point, tiles: &TileMap) -> (r: Vec<Segment>)
    requires
        in_limits(center, screen),
    ensures
        r@ == walls@ + frame_edges(center, screen) + obstacle_edges(tiles@, tiles@.len() as int),
{
    let mut out: Vec<Segment> = Vec::new();
    let mut i: usize = 0;
    while i < walls.len()
        invariant
            i <= walls.len(),
            out@ == walls@.take(i as int),
        decreases walls.len() - i,
    {
        out.push(walls[i]);
        assert(walls@.take(i + 1) =~= walls@.take(i as int).push(walls@[i as int]));
        i += 1;
    }
    assert(walls@.take(walls.len() as int) =~= walls@);
    let mut frame = frame_border(center, screen);
    let mut rest = obstacle_segments(tiles);
    out.append(&mut frame);
    out.append(&mut rest);
    out
}

} // verus!
