use matrix_io::client::{write_board, ClientState, TerritoryRing};
use matrix_io::codec::encode_server_msg;
use matrix_io::float64::Float64;
use matrix_io::input::{angle_of_key, is_movement_key, touch_dist, ScreenPoint, Steering};
use matrix_io::protocol::{
    ClientMsg, LeaderboardData, LeaderboardEntryData, PlayerStateData, Position, ServerMsg,
    TerritoryRingData,
};
use matrix_io::render::{DrawOp, Heading, PatternKey};
use matrix_io::wire::DecodeError;
use std::f64::consts::{FRAC_PI_2, PI};

fn number(x: f64) -> Float64 {
    Float64 { bits: x.to_bits() }
}

fn native(x: Float64) -> f64 {
    f64::from_bits(x.bits)
}

fn at(x: f64, y: f64) -> Position {
    Position { x: number(x), y: number(y) }
}

fn client() -> ClientState {
    ClientState::new(number(800.0), number(600.0), String::new())
}

/// A client whose player has the id one.
fn playing() -> ClientState {
    let mut c = client();
    c.opened();
    let welcome = ServerMsg::Welcome {
        player_id: 1,
        position: at(0.0, 0.0),
        angle: number(f64::NAN),
        color: [10, 20, 30],
    };
    assert!(c.receive(welcome, number(100.0)).is_none());
    c
}

fn state(id: u64, color: [u8; 3], sprite_id: u32) -> PlayerStateData {
    PlayerStateData {
        id,
        position: at(id as f64, 0.0),
        angle: number(0.0),
        color,
        trail: vec![at(0.0, 0.0), at(1.0, 1.0)],
        sprite_id,
        has_crown: id == 2,
        boost_points: 0,
        boost_active: false,
    }
}

fn tick(players: Vec<PlayerStateData>) -> ServerMsg {
    ServerMsg::Tick { players, board_radius: number(50.0) }
}

fn point(x: i32, y: i32) -> ScreenPoint {
    ScreenPoint { x, y }
}

#[test]
fn a_new_client_knows_nothing() {
    let c = client();
    assert!(!c.connected && !c.alive && c.player_id.is_none());
    assert!(c.players.is_empty() && c.territory.is_empty());
    assert_eq!(native(c.zoom), 1.0);
}

#[test]
fn a_welcome_starts_over() {
    let mut c = playing();
    assert!(c.alive);
    assert_eq!(c.player_id, Some(1));
    assert_eq!(c.players.len(), 1);
    assert_eq!(c.players[0].color_fill, "rgb(10,20,30)");
    assert_eq!(c.players[0].color_trail, "rgba(10,20,30,0.8)");
    assert!(!c.players[0].has_crown);
    c.receive(tick(vec![state(1, [1, 2, 3], 4), state(2, [5, 6, 7], 8)]), number(150.0));
    assert_eq!(c.players.len(), 2);
    let again = ServerMsg::Welcome {
        player_id: 9,
        position: at(0.0, 0.0),
        angle: number(0.0),
        color: [0, 0, 0],
    };
    c.receive(again, number(200.0));
    assert_eq!(c.players.len(), 1);
    assert_eq!(c.players[0].id, 9);
}

#[test]
fn a_tick_tells_whom_to_know() {
    let mut c = playing();
    c.receive(tick(vec![state(2, [5, 6, 7], 8), state(3, [1, 1, 1], 9)]), number(150.0));
    assert_eq!(c.players.iter().map(|p| p.id).collect::<Vec<_>>(), vec![1, 2, 3]);
    assert_eq!(native(c.last_tick_time), 150.0);
    let second = &c.players[1];
    assert_eq!(second.position, at(2.0, 0.0));
    assert_eq!(second.trail.len(), 2);
    assert_eq!(second.sprite_id, 8);
    assert!(second.has_crown);
    assert_eq!(native(second.server_time), 150.0);
    assert_eq!(second.color_fill, "rgb(5,6,7)");
    // Who is not told of is forgotten, but for the own player; colors follow.
    c.receive(tick(vec![state(3, [2, 2, 2], 9)]), number(200.0));
    assert_eq!(c.players.iter().map(|p| p.id).collect::<Vec<_>>(), vec![1, 3]);
    assert_eq!(c.players[1].color_trail, "rgba(2,2,2,0.8)");
    // Nobody is known twice.
    c.receive(tick(vec![state(3, [2, 2, 2], 9), state(3, [4, 4, 4], 5)]), number(250.0));
    assert_eq!(c.players.iter().map(|p| p.id).collect::<Vec<_>>(), vec![1, 3]);
    assert_eq!(c.players[1].color, [4, 4, 4]);
}

#[test]
fn before_a_welcome_nobody_is_forgotten() {
    let mut c = client();
    c.receive(tick(vec![state(2, [5, 6, 7], 8)]), number(1.0));
    c.receive(tick(vec![state(3, [5, 6, 7], 8)]), number(2.0));
    assert_eq!(c.players.iter().map(|p| p.id).collect::<Vec<_>>(), vec![2, 3]);
}

#[test]
fn the_killed_are_forgotten() {
    let mut c = playing();
    c.receive(tick(vec![state(2, [5, 6, 7], 8)]), number(1.0));
    c.receive(ServerMsg::PlayerKilled { player_id: 2, killer_id: Some(1) }, number(2.0));
    assert!(c.alive);
    assert_eq!(c.find(2), None);
    c.receive(ServerMsg::PlayerKilled { player_id: 1, killer_id: None }, number(3.0));
    assert!(!c.alive);
    assert!(c.players.is_empty());
}

#[test]
fn outlines_have_boxes_and_colors() {
    let ring = TerritoryRing::from_data(&TerritoryRingData {
        player_id: 4,
        color: [1, 22, 133],
        points: vec![at(0.0, 1.0), at(5.0, -2.0), at(3.0, 3.0)],
        sprite_id: 6,
    });
    assert_eq!(ring.color_str, "rgba(1,22,133,0.35)");
    assert_eq!(ring.sprite_id, 6);
    assert_eq!(
        (
            native(ring.bounds.min_x),
            native(ring.bounds.min_y),
            native(ring.bounds.max_x),
            native(ring.bounds.max_y)
        ),
        (0.0, -2.0, 5.0, 3.0)
    );
}

#[test]
fn leaderboards_become_text() {
    let lines = vec![
        LeaderboardEntryData { name: String::from("Ann"), value: 120 },
        LeaderboardEntryData { name: String::new(), value: 7 },
    ];
    assert_eq!(write_board("T\n", &lines), "T\n1. Ann (120)\n2. ??? (7)\n");
    assert_eq!(write_board("T\n", &vec![]), "T\n  ---\n");
    let mut c = playing();
    let msg = ServerMsg::Leaderboard(LeaderboardData { by_area: lines, by_kills: vec![] });
    let texts = c.receive(msg, number(1.0)).unwrap();
    assert_eq!(texts.area, "<b>Top Area</b>\n1. Ann (120)\n2. ??? (7)\n");
    assert_eq!(texts.kills, "<b>Top Kills</b>\n  ---\n");
}

#[test]
fn bytes_are_handled_or_refused() {
    let mut c = client();
    let welcome = ServerMsg::Welcome {
        player_id: 5,
        position: at(1.0, 2.0),
        angle: number(0.0),
        color: [0, 0, 0],
    };
    assert!(matches!(c.handle_msg(&encode_server_msg(&welcome), number(1.0)), Ok(None)));
    assert_eq!(c.player_id, Some(5));
    assert!(matches!(c.handle_msg(&[1, 2, 3], number(1.0)), Err(DecodeError::Packing)));
    assert_eq!(c.player_id, Some(5));
    let pong = encode_server_msg(&ServerMsg::Pong(number(1.0)));
    assert!(matches!(c.handle_msg(&pong, number(2.0)), Ok(None)));
}

#[test]
fn keys_stand_for_directions() {
    for (keys, angle) in [
        (["ArrowRight", "d", "D"], 0.0),
        (["ArrowDown", "s", "S"], FRAC_PI_2),
        (["ArrowLeft", "a", "A"], PI),
        (["ArrowUp", "w", "W"], -FRAC_PI_2),
    ] {
        for key in keys {
            assert_eq!(angle_of_key(key), Some(number(angle)));
            assert!(is_movement_key(key));
        }
    }
    for key in ["", "Enter", "arrowup", "ww"] {
        assert_eq!(angle_of_key(key), None);
        assert!(!is_movement_key(key));
    }
}

#[test]
fn one_finger_steers() {
    let mut c = playing();
    assert_eq!(
        c.touch_start(&vec![point(500, 200)]),
        Steering::Toward { dx: number(100.0), dy: number(-100.0) }
    );
    assert!(c.touching);
    assert_eq!(
        c.touch_move(&vec![point(400, 301)]),
        Steering::Toward { dx: number(0.0), dy: number(1.0) }
    );
    assert_eq!(c.touch_end(0), Steering::Stop);
    assert!(!c.touching);
    assert_eq!(c.touch_move(&vec![point(400, 301)]), Steering::Keep);
    assert_eq!(c.touch_start(&vec![]), Steering::Keep);
}

#[test]
fn two_fingers_zoom() {
    let mut c = playing();
    c.touch_start(&vec![point(1, 1)]);
    let fingers = vec![point(0, 0), point(30, 40)];
    assert_eq!(touch_dist(&fingers), Some(number(50.0)));
    assert_eq!(touch_dist(&vec![point(0, 0)]), None);
    assert_eq!(c.touch_start(&fingers), Steering::Stop);
    assert_eq!(c.pinch_dist, Some(number(50.0)));
    // One finger does not steer while two pinch.
    assert_eq!(c.touch_start(&vec![point(1, 1)]), Steering::Keep);
    assert_eq!(c.touch_move(&vec![point(0, 0), point(60, 80)]), Steering::Keep);
    assert_eq!(native(c.zoom), 2.0);
    c.touch_move(&vec![point(0, 0), point(6000, 8000)]);
    assert_eq!(native(c.zoom), 5.0);
    c.touch_move(&vec![point(0, 0), point(0, 0)]);
    assert_eq!(native(c.zoom), 0.15);
    assert_eq!(c.touch_end(2), Steering::Keep);
    assert!(c.pinch_dist.is_some());
    assert_eq!(c.touch_end(1), Steering::Stop);
    assert!(c.pinch_dist.is_none());
}

#[test]
fn the_main_button_steers() {
    let mut c = playing();
    assert_eq!(c.mouse_press(2, point(0, 0)), Steering::Keep);
    assert_eq!(c.mouse_move(point(0, 0)), Steering::Keep);
    assert_eq!(
        c.mouse_press(0, point(0, 0)),
        Steering::Toward { dx: number(-400.0), dy: number(-300.0) }
    );
    assert_eq!(
        c.mouse_move(point(401, 300)),
        Steering::Toward { dx: number(1.0), dy: number(0.0) }
    );
    assert_eq!(c.mouse_release(1), Steering::Keep);
    assert_eq!(c.mouse_release(0), Steering::Stop);
    assert_eq!(c.mouse_release(0), Steering::Keep);
}

#[test]
fn the_wheel_zooms_within_limits() {
    let mut c = playing();
    c.wheel(number(1.0));
    assert_eq!(native(c.zoom), 0.9);
    c.wheel(number(-1.0));
    assert_eq!(native(c.zoom), 0.9 * 1.1);
    for _ in 0..100 {
        c.wheel(number(-1.0));
    }
    assert_eq!(native(c.zoom), 5.0);
    for _ in 0..100 {
        c.wheel(number(3.0));
    }
    assert_eq!(native(c.zoom), 0.15);
    c.resize(number(100.0), number(50.0));
    assert_eq!((native(c.width), native(c.height)), (100.0, 50.0));
}

#[test]
fn a_client_greets_with_sprite_and_name() {
    let mut c = client();
    c.my_sprite_id = 3;
    let msgs = c.opened();
    assert!(c.connected);
    assert_eq!(msgs.len(), 1);
    assert!(matches!(msgs[0], ClientMsg::SetSprite(3)));
    c.my_name = String::from("Kim");
    let msgs = c.opened();
    assert_eq!(msgs.len(), 2);
    assert!(matches!(&msgs[1], ClientMsg::SetName(n) if n == "Kim"));
    let mut c = playing();
    c.closed();
    assert!(!c.connected && !c.alive && c.player_id.is_none());
}

#[test]
fn sprites_are_remembered_or_picked() {
    let mut c = client();
    assert!(!c.sprites_loaded(10, &Some(String::from("7")), number(0.0)));
    assert_eq!((c.sprite_count, c.my_sprite_id), (10, 7));
    assert!(c.sprites_loaded(10, &Some(String::from("10")), number(0.59)));
    assert_eq!(c.my_sprite_id, 5);
    assert!(c.sprites_loaded(10, &Some(String::from("x")), number(0.99)));
    assert_eq!(c.my_sprite_id, 9);
    assert!(c.sprites_loaded(10, &None, number(0.0)));
    assert_eq!(c.my_sprite_id, 0);
    assert_eq!(c.regenerate_sprite(number(0.31)), Some(3));
    assert_eq!(c.my_sprite_id, 3);
    let mut c = client();
    assert_eq!(c.regenerate_sprite(number(0.5)), None);
}

#[test]
fn a_picked_sprite_is_one_of_the_sprites() {
    let below_one = f64::from_bits(1.0_f64.to_bits() - 1);
    for count in [1, 2, 3, 10, 1000, u32::MAX] {
        for random in [0.0, 0.5, 0.999_999, below_one] {
            let mut c = client();
            assert!(c.sprites_loaded(count, &None, number(random)));
            assert!(c.my_sprite_id < count);
        }
    }
}

#[test]
fn names_are_trimmed_and_not_blank() {
    let mut c = client();
    assert_eq!(c.rename("  Ada \n"), Some(String::from("Ada")));
    assert_eq!(c.my_name, "Ada");
    assert_eq!(c.rename(" \t "), None);
    assert_eq!(c.my_name, "Ada");
}

fn east() -> Heading {
    Heading { cos: number(1.0), sin: number(0.0) }
}

#[test]
fn without_a_game_a_message_is_drawn() {
    let mut c = client();
    let ops = c.render(&vec![], &vec![], &vec![], number(0.0));
    assert_eq!(ops.len(), 3);
    assert!(matches!(&ops[0], DrawOp::FillStyle(s) if s == "#ffffff"));
    assert!(matches!(&ops[1], DrawOp::FillRect { width, height }
        if *width == number(800.0) && *height == number(600.0)));
    assert!(matches!(&ops[2], DrawOp::Message { text, at: p }
        if text == "Connecting..." && *p == at(400.0, 300.0)));
    c.opened();
    let ops = c.render(&vec![], &vec![], &vec![], number(0.0));
    assert!(matches!(&ops[2], DrawOp::Message { text, .. } if text == "You died! Reconnecting..."));
}

#[test]
fn the_grid_is_drawn_around_the_player() {
    let mut c = playing();
    c.resize(number(60.0), number(30.0));
    let ops = c.render(&vec![east()], &vec![], &vec![], number(100.0));
    assert!(matches!(&ops[2], DrawOp::StrokeStyle(s) if s == "rgba(0,0,0,0.04)"));
    assert!(matches!(ops[3], DrawOp::LineWidth(w) if w == number(0.5)));
    assert!(matches!(ops[4], DrawOp::BeginPath));
    // Two cells to each side and five upright lines; two rows to each side and five level ones.
    assert!(matches!(ops[5], DrawOp::MoveTo(p) if p == at(-30.0, 0.0)));
    assert!(matches!(ops[6], DrawOp::LineTo(p) if p == at(-30.0, 30.0)));
    assert!(matches!(ops[13], DrawOp::MoveTo(p) if p == at(90.0, 0.0)));
    assert!(matches!(ops[15], DrawOp::MoveTo(p) if p == at(0.0, -45.0)));
    assert!(matches!(ops[24], DrawOp::LineTo(p) if p == at(60.0, 75.0)));
    assert!(matches!(ops[25], DrawOp::Stroke));
}

fn ring(color: [u8; 3], x: f64, sprite_id: u32) -> TerritoryRingData {
    TerritoryRingData {
        player_id: 1,
        color,
        points: vec![at(x, 0.0), at(x + 1.0, 0.0), at(x, 1.0)],
        sprite_id,
    }
}

#[test]
fn territories_are_filled_color_by_color() {
    let mut c = playing();
    let rings = vec![
        ring([1, 1, 1], 0.0, 5),
        ring([2, 2, 2], 1.0, 6),
        ring([1, 1, 1], 2.0, 7),
        ring([3, 3, 3], 1000.0, 8),
    ];
    c.receive(ServerMsg::TerritorySnapshot(rings), number(100.0));
    c.resize(number(60.0), number(30.0));
    let known = vec![PatternKey { sprite_id: 6, color: [2, 2, 2] }];
    let ops = c.render(&vec![east()], &known, &vec![], number(100.0));
    let rest = &ops[26..];
    assert!(matches!(&rest[0], DrawOp::FillStyle(s) if s == "rgba(1,1,1,0.35)"));
    assert!(matches!(rest[1], DrawOp::BeginPath));
    assert!(matches!(rest[2], DrawOp::MoveTo(p) if p == at(30.0, 15.0)));
    assert!(matches!(rest[3], DrawOp::LineTo(p) if p == at(60.0, 15.0)));
    assert!(matches!(rest[4], DrawOp::LineTo(p) if p == at(30.0, 45.0)));
    assert!(matches!(rest[5], DrawOp::ClosePath));
    // The third outline starts at the right edge of the screen's neighbourhood and is off it.
    assert!(matches!(rest[6], DrawOp::Fill));
    assert!(matches!(rest[7], DrawOp::FillPattern { sprite_id: 6, color: [2, 2, 2] }));
    assert!(matches!(rest[13], DrawOp::Fill));
    assert_eq!(c.missing_patterns(&known).len(), 3);
    assert_eq!(c.missing_patterns(&known)[1].sprite_id, 7);
}

#[test]
fn players_are_drawn_with_trail_line_and_crown() {
    let mut c = playing();
    c.resize(number(60.0), number(30.0));
    c.receive(tick(vec![state(2, [5, 6, 7], 8)]), number(100.0));
    let ops = c.render(&vec![east(), east()], &vec![], &vec![8], number(100.0));
    let rest = &ops[26..];
    assert!(matches!(&rest[0], DrawOp::StrokeStyle(s) if s == "rgba(5,6,7,0.8)"));
    assert!(matches!(rest[1], DrawOp::LineWidth(w) if w == number(4.5)));
    assert!(matches!(rest[2], DrawOp::RoundLines));
    assert!(matches!(rest[4], DrawOp::MoveTo(p) if p == at(30.0, 15.0)));
    assert!(matches!(rest[6], DrawOp::Stroke));
    // The own player has no image and stands: a disc.
    assert!(matches!(&rest[7], DrawOp::FillStyle(s) if s == "rgb(10,20,30)"));
    assert!(matches!(rest[9], DrawOp::Circle { center, radius }
        if center == at(30.0, 15.0) && radius == number(12.0)));
    // The other has one, moves and leads.
    assert!(matches!(rest[11], DrawOp::Sprite { sprite_id: 8, corner, size }
        if corner == at(42.0, -33.0) && size == number(96.0)));
    assert!(matches!(rest[16], DrawOp::LineTo(p) if p == at(90.0 + 12.0 * 1.6, 15.0)));
    assert!(matches!(rest[18], DrawOp::Crown { size, at: p }
        if size == number(48.0) && p == at(90.0, 15.0 - 96.0 * 0.4)));
    assert_eq!(rest.len(), 19);
    assert_eq!(c.missing_sprites(&vec![0]), vec![8]);
    assert!(c.missing_sprites(&vec![0, 8]).is_empty());
}

#[test]
fn a_movement_is_guessed_for_a_short_time() {
    let mut c = playing();
    c.receive(tick(vec![state(2, [5, 6, 7], 8)]), number(1000.0));
    let p = &c.players[1];
    assert_eq!(p.extrap(east(), number(1000.0)), at(2.0, 0.0));
    assert_eq!(native(p.extrap(east(), number(1100.0)).x), 2.0 + 1.0 * 12.5 * 0.1);
    assert_eq!(native(p.extrap(east(), number(9000.0)).x), 2.0 + 1.0 * 12.5 * 0.15);
    // Who stands stays.
    assert_eq!(c.players[0].extrap(east(), number(9000.0)), at(0.0, 0.0));
}

#[test]
fn texts_and_boxes_follow_every_message() {
    let mut c = client();
    let welcome = ServerMsg::Welcome {
        player_id: 1,
        position: at(0.0, 0.0),
        angle: number(f64::NAN),
        color: [10, 20, 30],
    };
    let msgs = vec![
        tick(vec![state(2, [5, 6, 7], 8)]),
        ServerMsg::TerritorySnapshot(vec![ring([1, 22, 133], 0.0, 6), ring([0, 0, 0], 9.0, 0)]),
        welcome,
        tick(vec![state(1, [40, 50, 60], 3), state(2, [255, 0, 255], 8), state(3, [9, 9, 9], 1)]),
        ServerMsg::PlayerKilled { player_id: 2, killer_id: None },
        tick(vec![state(3, [8, 8, 8], 1), state(3, [7, 77, 0], 1)]),
        ServerMsg::TerritorySnapshot(vec![ring([200, 100, 0], -5.0, 2)]),
        ServerMsg::Pong(number(1.0)),
    ];
    for (i, msg) in msgs.into_iter().enumerate() {
        c.receive(msg, number(i as f64));
        for p in &c.players {
            let [r, g, b] = p.color;
            assert_eq!(p.color_fill, format!("rgb({r},{g},{b})"));
            assert_eq!(p.color_trail, format!("rgba({r},{g},{b},0.8)"));
        }
        for t in &c.territory {
            let [r, g, b] = t.color;
            assert_eq!(t.color_str, format!("rgba({r},{g},{b},0.35)"));
            let least = t.points.iter().map(|p| native(p.x)).fold(f64::INFINITY, f64::min);
            assert_eq!(native(t.bounds.min_x), least);
        }
    }
    assert_eq!(c.players.iter().map(|p| p.id).collect::<Vec<_>>(), vec![1, 3]);
    assert_eq!(c.players[0].color_fill, "rgb(40,50,60)");
    assert_eq!(c.players[1].color_trail, "rgba(7,77,0,0.8)");
    assert_eq!(c.territory[0].color_str, "rgba(200,100,0,0.35)");
}
