use cave_escape::cave::{step, Player};
use cave_escape::collision::{collision_set, frame_border, obstacle_segments};
use cave_escape::geometry::{Point, Segment};
use cave_escape::grid::{build_map, MapInfo, TileType};
use cave_escape::light::{cull_extent, light_targets};

fn p(x: i64, y: i64) -> Point {
    Point { x, y }
}

fn s(bx: i64, by: i64, ex: i64, ey: i64) -> Segment {
    Segment::new(p(bx, by), p(ex, ey))
}

fn compiled(text: &str) -> MapInfo {
    match build_map(text) {
        Ok(m) => m,
        Err(e) => panic!("unexpected error {:?}", e),
    }
}

#[test]
fn frame_border_is_reversed_rectangle() {
    let f = frame_border(p(100, 200), p(840, 840));
    let expected = vec![
        s(-320, -220, 520, -220).reverse_normal(),
        s(520, -220, 520, 620).reverse_normal(),
        s(520, 620, -320, 620).reverse_normal(),
        s(-320, 620, -320, -220).reverse_normal(),
    ];
    assert_eq!(f, expected);
    assert!(f.iter().all(|e| e.normal_reversed));
}

#[test]
fn doors_and_spikes_get_boxes() {
    let m = compiled("1\n.d\ns.");
    let boxes = obstacle_segments(&m.tiles);
    assert_eq!(
        boxes,
        vec![
            s(28, 0, 56, 0),
            s(56, 0, 56, 28),
            s(56, 28, 28, 28),
            s(28, 28, 28, 0),
            s(0, 28, 28, 28),
            s(28, 28, 28, 56),
            s(28, 56, 0, 56),
            s(0, 56, 0, 28),
        ]
    );
}

#[test]
fn collision_set_is_walls_then_frame_then_boxes() {
    let m = compiled("1\nwd");
    let all = collision_set(&m.collision, p(0, 0), p(10, 20), &m.tiles);
    assert_eq!(all.len(), m.collision.len() + 4 + 4);
    assert_eq!(&all[..4], &m.collision[..]);
    assert_eq!(all[4], s(-5, -10, 5, -10).reverse_normal());
    assert_eq!(all[8], s(28, 0, 56, 0));
}

#[test]
fn cull_box_is_fifty_five_percent() {
    assert_eq!(cull_extent(p(840, 840)), p(462, 462));
    assert_eq!(cull_extent(p(100, 7)), p(55, 3));
}

#[test]
fn light_targets_are_segment_begins_inside_the_box() {
    let walls = vec![s(0, 0, 5, 5), s(463, 0, 0, 0), s(-462, 462, 0, 0), s(10, -500, 0, 0)];
    let t = light_targets(p(0, 0), &walls, p(462, 462));
    assert_eq!(t, vec![p(0, 0), p(-462, 462)]);
}

#[test]
fn no_segments_no_light_targets() {
    let t = light_targets(p(3, 4), &vec![], p(462, 462));
    assert!(t.is_empty());
}

#[test]
fn room_light_targets_stay_on_the_room_outline() {
    let m = compiled("0\nwwww\nw..w\nwp.w\nwwww");
    let t = light_targets(p(42, 70), &m.collision, p(462, 462));
    assert_eq!(t.len(), m.collision.len());
    for (pt, seg) in t.iter().zip(m.collision.iter()) {
        assert_eq!(*pt, seg.begin);
    }
}

#[test]
fn walking_onto_floor_moves() {
    let mut m = compiled("0\n.p.");
    let mut pl = Player::new();
    pl.pos = m.player_start;
    assert!(step(&mut m.tiles, &mut pl, 1, 0));
    assert_eq!(pl.pos, p(56, 0));
    assert!(!step(&mut m.tiles, &mut pl, 1, 0));
    assert_eq!(pl.pos, p(56, 0));
}

#[test]
fn gold_is_picked_up_and_doors_cost_five() {
    let mut m = compiled("9\npgggggd");
    let mut pl = Player::new();
    for i in 1..6 {
        assert!(step(&mut m.tiles, &mut pl, 1, 0));
        assert_eq!(pl.gold, i);
        assert_eq!(m.tiles.tile_at(i as i64, 0), TileType::Floor);
    }
    assert!(step(&mut m.tiles, &mut pl, 1, 0));
    assert_eq!(pl.gold, 0);
    assert_eq!(pl.pos, p(168, 0));
    assert_eq!(m.tiles.tile_at(6, 0), TileType::Floor);
}

#[test]
fn poor_player_stays_before_a_door() {
    let mut m = compiled("9\npgd");
    let mut pl = Player::new();
    assert!(step(&mut m.tiles, &mut pl, 1, 0));
    assert!(!step(&mut m.tiles, &mut pl, 1, 0));
    assert_eq!(pl.pos, p(28, 0));
    assert_eq!(pl.gold, 1);
    assert_eq!(m.tiles.tile_at(2, 0), TileType::Door);
}

#[test]
fn health_and_spikes() {
    let mut m = compiled("0\nphs");
    let mut pl = Player::new();
    assert!(step(&mut m.tiles, &mut pl, 1, 0));
    assert_eq!(pl.health, 1);
    assert!(!step(&mut m.tiles, &mut pl, 1, 0));
    assert_eq!(pl.health, 0);
    assert_eq!(pl.pos, p(28, 0));
    assert_eq!(m.tiles.tile_at(2, 0), TileType::Spikes);
}

#[test]
fn diagonal_steps_and_negative_positions() {
    let mut m = compiled("0\np.\n..");
    let mut pl = Player::new();
    assert!(step(&mut m.tiles, &mut pl, 1, 1));
    assert_eq!(pl.pos, p(28, 28));
    pl.pos = p(-10, 0);
    // -10 rounds toward zero, to tile 0
    assert!(step(&mut m.tiles, &mut pl, 0, 0));
    assert_eq!(pl.pos, p(-10, 0));
}
