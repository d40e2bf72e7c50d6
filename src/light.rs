use vstd::prelude::*;
use crate::geometry::{Point, Segment};

verus! {

pub open spec fn abs(v: int) -> int {
    if v < 0 {
        -v
    } else {
        v
    }
}

/// `p` lies within the axis-aligned box of half-extents `cull` around `origin`.
pub open spec fn in_cull_box(p: Point, origin: Point, cull: Point) -> bool {
    abs(p.x - origin.x) <= cull.x && abs(p.y - origin.y) <= cull.y
}

/// The points that rays are aimed at: the `begin` of each segment, in order, keeping
/// those inside the cull box.
pub open spec fn ray_targets(walls: Seq<Segment>, origin: Point, cull: Point) -> Seq<Point>
    decreases walls.len(),
{
    if walls.len() == 0 {
        Seq::empty()
    } else {
        let p = walls.last().begin;
        ray_targets(walls.drop_last(), origin, cull) + if in_cull_box(p, origin, cull) {
            seq![p]
        } else {
            Seq::empty()
        }
    }
}

/// The cull box half-extents for a screen: 55% of each of its dimensions, rounded down.
pub open spec fn cull_of(screen: Point) -> Point {
    Point { x: (screen.x * 55 / 100) as i64, y: (screen.y * 55 / 100) as i64 }
}

/// The cull box half-extents for `screen`, as `cull_of` states.
pub fn cull_extent(screen: Point) -> (r: Point)
    requires
        0 <= screen.x <= 1_000_000_000_000_000,
        0 <= screen.y <= 1_000_000_000_000_000,
    ensures
        r == cull_of(screen),
{
    Point { x: screen.x * 55 / 100, y: screen.y * 55 / 100 }
}

fn within(p: Point, origin: Point, cull: Point) -> (r: bool)
    ensures
        r == in_cull_box(p, origin, cull),
{
    let dx = p.x as i128 - origin.x as i128;
    let dy = p.y as i128 - origin.y as i128;
    let ax = if dx < 0 { -dx } else { dx };
    let ay = if dy < 0 { -dy } else { dy };
    ax <= cull.x as i128 && ay <= cull.y as i128
}

/// The points that the light from `origin` casts its rays at, as `ray_targets` states.
pub fn light_targets(origin: Point, walls: &Vec<Segment>, cull: Point) -> (r: Vec<Point>)
    ensures
        r@ == ray_targets(walls@, origin, cull),
{
    let mut out: Vec<Point> = Vec::new();
    let mut i: usize = 0;
    assert(walls@.take(0) =~= Seq::<Segment>::empty());
    while i < walls.len()
        invariant
            i <= walls.len(),
            out@ == ray_targets(walls@.take(i as int), origin, cull),
        decreases walls.len() - i,
    {
        let p = walls[i].begin;
        assert(walls@.take(i + 1).drop_last() =~= walls@.take(i as int));
        if within(p, origin, cull) {
            out.push(p);
        }
        assert(out@ =~= ray_targets(walls@.take(i + 1), origin, cull));
        i += 1;
    }
    assert(walls@.take(walls.len() as int) =~= walls@);
    out
}

/// With no segments there is nothing to aim at, so the light ring is empty.
pub proof fn lemma_no_segments_no_targets(origin: Point, cull: Point)
    ensures
        ray_targets(Seq::empty(), origin, cull) == Seq::<Point>::empty(),
{
}

} // verus!
