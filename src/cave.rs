use vstd::prelude::*;
use crate::geometry::{Point, TILE_WIDTH, pt};
use crate::grid::{TileMap, TileType, kind_at};

verus! {

/// Gold that opening any door takes.
pub const DOOR_PRICE: i32 = 5;

/// The player's place on the map and what it carries.
#[derive(Clone, Copy, Debug, PartialEq, Eq, Structural)]
pub struct Player {
    /// World position of the top-left corner of the player's tile.
    pub pos: Point,
    pub gold: i32,
    pub health: i32,
}

impl Player {
    /// A player at the origin with nothing.
    pub fn new() -> (r: Player)
        ensures
            r.pos == pt(0, 0),
            r.gold == 0,
            r.health == 0,
    {
        Player { pos: Point { x: 0, y: 0 }, gold: 0, health: 0 }
    }
}

/// Integer division that rounds toward zero.
pub open spec fn div_toward_zero(v: int, d: int) -> int {
    if v >= 0 {
        v / d
    } else {
        -((-v) / d)
    }
}

/// The tile that holds world coordinate `v` on one axis, rounding toward zero.
pub open spec fn tile_coord(v: int) -> int {
    div_toward_zero(v, TILE_WIDTH as int)
}

pub open spec fn plus_one(v: i32) -> i32 {
    if v < i32::MAX {
        (v + 1) as i32
    } else {
        v
    }
}

pub open spec fn minus_one(v: i32) -> i32 {
    if v > i32::MIN {
        (v - 1) as i32
    } else {
        v
    }
}

/// Bound on the player's coordinates.
pub const POS_LIMIT: i64 = 1_000_000_000_000_000;

/// What one step toward `(dx, dy)` tiles does to the map and the player, and whether the
/// player moved. Floor is walked onto; a door opens into floor for `DOOR_PRICE` gold if
/// the player has it; gold and health are picked up (the tile becomes floor); spikes
/// cost one health and keep the player out; anything else, and a missing tile, blocks.
/// Counters saturate at the bounds of `i32`.
pub open spec fn step_result(
    m: Seq<Seq<Option<TileType>>>,
    p: Player,
    dx: int,
    dy: int,
) -> (Seq<Seq<Option<TileType>>>, Player, bool) {
    let target = pt(p.pos.x + dx * TILE_WIDTH, p.pos.y + dy * TILE_WIDTH);
    let tx = tile_coord(target.x as int);
    let ty = tile_coord(target.y as int);
    let cleared = m.update(ty, m[ty].update(tx, Some(TileType::Floor)));
    match kind_at(m, tx, ty) {
        TileType::Floor => (m, Player { pos: target, ..p }, true),
        TileType::Door => if p.gold >= DOOR_PRICE {
            (cleared, Player { pos: target, gold: (p.gold - DOOR_PRICE) as i32, ..p }, true)
        } else {
            (m, p, false)
        },
        TileType::Gold => (cleared, Player { pos: target, gold: plus_one(p.gold), ..p }, true),
        TileType::Health => (cleared, Player { pos: target, health: plus_one(p.health), ..p }, true),
        TileType::Spikes => (m, Player { health: minus_one(p.health), ..p }, false),
        _ => (m, p, false),
    }
}

fn tile_of(v: i64) -> (r: i64)
    ensures
        r == tile_coord(v as int),
{
    if v >= 0 {
        v / TILE_WIDTH
    } else {
        let n = v as i128;
        (-((-n) / 28)) as i64
    }
}

/// Takes one step toward `(dx, dy)` tiles, each of them -1, 0 or 1, as `step_result` states.
pub fn step(tiles: &mut TileMap, player: &mut Player, dx: i64, dy: i64) -> (moved: bool)
    requires
        -1 <= dx <= 1,
        -1 <= dy <= 1,
        -POS_LIMIT <= old(player).pos.x <= POS_LIMIT,
        -POS_LIMIT <= old(player).pos.y <= POS_LIMIT,
    ensures
        (final(tiles)@, *final(player), moved) == step_result(old(tiles)@, *old(player), dx as int, dy as int),
{
    let target = Point { x: player.pos.x + dx * TILE_WIDTH, y: player.pos.y + dy * TILE_WIDTH };
    let tx = tile_of(target.x);
    let ty = tile_of(target.y);
    let ghost m = tiles@;
    let kind = tiles.tile_at(tx, ty);
    match kind {
        TileType::Floor => {
            player.pos = target;
            true
        },
        TileType::Door => {
            if player.gold >= DOOR_PRICE {
                player.gold = player.gold - DOOR_PRICE;
                tiles.set(tx, ty, TileType::Floor);
                player.pos = target;
                true
            } else {
                false
            }
        },
        TileType::Gold => {
            tiles.set(tx, ty, TileType::Floor);
            if player.gold < i32::MAX {
                player.gold = player.gold + 1;
            }
            player.pos = target;
            true
        },
        TileType::Health => {
            tiles.set(tx, ty, TileType::Floor);
            if player.health < i32::MAX {
                player.health = player.health + 1;
            }
            player.pos = target;
            true
        },
        TileType::Spikes => {
            if player.health > i32::MIN {
                player.health = player.health - 1;
            }
            false
        },
        _ => false,
    }
}

} // verus!
