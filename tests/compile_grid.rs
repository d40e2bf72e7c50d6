use cave_escape::geometry::{Point, Segment};
use cave_escape::grid::{build_map, grid_rows, CaveObject, MapInfo, ParseError, TileType};

fn p(x: i64, y: i64) -> Point {
    Point { x, y }
}

fn s(bx: i64, by: i64, ex: i64, ey: i64) -> Segment {
    Segment::new(p(bx, by), p(ex, ey))
}

fn compiled(text: &str) -> MapInfo {
    match build_map(text) {
        Ok(m) => m,
        Err(e) => panic!("unexpected error {:?}", e),
    }
}

#[test]
fn small_room_compiles_to_outer_and_inner_rectangles() {
    let m = compiled("0\nwwww\nw..w\nwp.w\nwwww");
    let expected = vec![
        s(0, 112, 0, 0),
        s(0, 0, 112, 0),
        s(84, 28, 28, 28),
        s(112, 0, 112, 112),
        s(28, 28, 28, 84),
        s(84, 84, 84, 28),
        s(112, 112, 0, 112),
        s(28, 84, 84, 84),
    ];
    assert_eq!(m.collision, expected);
    assert_eq!(m.player_start, p(28, 56));
    assert!(m.objects.is_empty());
    assert_eq!(m.tiles.tile_at(1, 2), TileType::Floor);
    assert_eq!(m.tiles.tile_at(0, 0), TileType::Wall);
}

#[test]
fn room_interior_is_one_segment_per_side() {
    let m = compiled("0\nwwwwww\nww..ww\nww..ww\nww..ww\nwwwwww");
    assert_eq!(m.collision.len(), 8);
    // the room spans tiles x 2..4, y 1..4
    let room = [
        s(56, 28, 56, 112),
        s(112, 28, 56, 28),
        s(112, 112, 112, 28),
        s(56, 112, 112, 112),
    ];
    for side in room.iter() {
        assert!(m.collision.contains(side), "missing {:?}", side);
    }
    let outer = [s(0, 140, 0, 0), s(0, 0, 168, 0), s(168, 0, 168, 140), s(168, 140, 0, 140)];
    for side in outer.iter() {
        assert!(m.collision.contains(side), "missing {:?}", side);
    }
}

#[test]
fn wider_room_still_has_eight_segments() {
    let m = compiled("0\nwwwwwwwwww\nw........w\nw........w\nwwwwwwwwww");
    assert_eq!(m.collision.len(), 8);
}

#[test]
fn no_segment_between_two_walls() {
    let m = compiled("0\nwww\nwww\nwww");
    // a solid block has only its outline
    assert_eq!(
        m.collision,
        vec![s(0, 84, 0, 0), s(0, 0, 84, 0), s(84, 0, 84, 84), s(84, 84, 0, 84)]
    );
    for seg in m.collision.iter() {
        let on_outline = seg.begin.x == 0 && seg.end.x == 0
            || seg.begin.y == 0 && seg.end.y == 0
            || seg.begin.x == 84 && seg.end.x == 84
            || seg.begin.y == 84 && seg.end.y == 84;
        assert!(on_outline, "interior segment {:?}", seg);
    }
}

#[test]
fn single_wall_tile_has_four_unit_edges() {
    let m = compiled("0\nw");
    assert_eq!(
        m.collision,
        vec![s(0, 28, 0, 0), s(0, 0, 28, 0), s(28, 0, 28, 28), s(28, 28, 0, 28)]
    );
}

#[test]
fn l_shaped_wall_merges_straight_runs() {
    let m = compiled("0\nw.\nww");
    assert_eq!(
        m.collision,
        vec![
            s(0, 56, 0, 0),
            s(0, 0, 28, 0),
            s(28, 0, 28, 28),
            s(56, 56, 0, 56),
            s(28, 28, 56, 28),
            s(56, 28, 56, 56),
        ]
    );
}

#[test]
fn compiling_twice_gives_the_same_result() {
    let text = "3,4\nwwwww\nwgd.w\nwhpdw\nwwwww";
    let a = compiled(text);
    let b = compiled(text);
    assert_eq!(a.collision, b.collision);
    assert_eq!(a.player_start, b.player_start);
    assert_eq!(a.objects, b.objects);
}

#[test]
fn objects_in_reading_order_with_door_costs() {
    let m = compiled("3,4\nwwwww\nwgd.w\nwhpdw\nwwwww");
    assert_eq!(
        m.objects,
        vec![
            CaveObject::Gold(p(28, 28)),
            CaveObject::Door(p(56, 28), 3),
            CaveObject::Health(p(28, 56)),
            CaveObject::Door(p(84, 56), 4),
        ]
    );
    assert_eq!(m.player_start, p(56, 56));
    assert_eq!(m.tiles.tile_at(2, 1), TileType::Door);
    assert_eq!(m.tiles.tile_at(1, 2), TileType::Health);
}

#[test]
fn door_without_cost_is_an_error() {
    assert_eq!(build_map("\nwdw").err(), Some(ParseError::BadDoorCost));
    assert_eq!(build_map("0\nwdwd").err(), Some(ParseError::MissingDoorCost));
    assert_eq!(build_map("5\nwdd").err(), Some(ParseError::MissingDoorCost));
}

#[test]
fn malformed_cost_is_an_error() {
    assert_eq!(build_map("x\nw.w").err(), Some(ParseError::BadDoorCost));
    assert_eq!(build_map("1,,2\nw").err(), Some(ParseError::BadDoorCost));
    assert_eq!(build_map("2147483648\nw").err(), Some(ParseError::BadDoorCost));
    assert_eq!(build_map("-\nw").err(), Some(ParseError::BadDoorCost));
    assert_eq!(build_map(" 1\nw").err(), Some(ParseError::BadDoorCost));
}

#[test]
fn cost_error_comes_before_door_count() {
    assert_eq!(build_map("q\nddd").err(), Some(ParseError::BadDoorCost));
}

#[test]
fn signed_and_extreme_costs_are_read() {
    let m = compiled("+7,-2147483648,2147483647,007\ndddd");
    assert_eq!(
        m.objects,
        vec![
            CaveObject::Door(p(0, 0), 7),
            CaveObject::Door(p(28, 0), -2147483648),
            CaveObject::Door(p(56, 0), 2147483647),
            CaveObject::Door(p(84, 0), 7),
        ]
    );
}

#[test]
fn empty_cost_line_is_malformed() {
    assert_eq!(build_map("\nwww").err(), Some(ParseError::BadDoorCost));
    assert_eq!(build_map("\n.p.").err(), Some(ParseError::BadDoorCost));
}

#[test]
fn empty_text_is_malformed() {
    assert_eq!(build_map("").err(), Some(ParseError::BadDoorCost));
}

#[test]
fn header_only_text_gives_an_empty_map() {
    let m = compiled("0");
    assert!(m.collision.is_empty());
    assert!(m.objects.is_empty());
    assert_eq!(m.player_start, p(0, 0));
    assert_eq!(m.tiles.height(), 0);
}

#[test]
fn spawn_defaults_to_origin_and_last_p_wins() {
    assert_eq!(compiled("0\n...").player_start, p(0, 0));
    assert_eq!(compiled("0\np..\n..p").player_start, p(56, 28));
}

#[test]
fn unknown_characters_leave_no_tile() {
    let m = compiled("0\nw?x\n b.");
    assert_eq!(m.tiles.get(1, 0), None);
    assert_eq!(m.tiles.get(0, 1), None);
    assert_eq!(m.tiles.get(1, 1), Some(TileType::Floor));
    assert_eq!(m.tiles.tile_at(1, 0), TileType::Wall);
    assert_eq!(m.tiles.tile_at(-1, 0), TileType::Wall);
    assert_eq!(m.tiles.tile_at(9, 9), TileType::Wall);
    // an empty tile is not a wall for the boundary: the wall gets all four edges
    assert_eq!(m.collision.len(), 4);
}

#[test]
fn carriage_returns_end_lines() {
    let a = compiled("1\r\nwdw\r\nw.w");
    let b = compiled("1\nwdw\nw.w");
    assert_eq!(a.objects, b.objects);
    assert_eq!(a.collision, b.collision);
}

#[test]
fn ragged_rows_are_handled() {
    let m = compiled("0\nww\nw");
    assert_eq!(
        m.collision,
        vec![
            s(0, 56, 0, 0),
            s(0, 0, 56, 0),
            s(56, 0, 56, 28),
            s(56, 28, 28, 28),
            s(28, 28, 28, 56),
            s(28, 56, 0, 56),
        ]
    );
}

#[test]
fn grid_rows_skip_the_cost_line() {
    let rows = grid_rows("1,2\nab\n\nc");
    assert_eq!(rows, vec![vec!['a', 'b'], vec![], vec!['c']]);
}
