use matrix_io::capture::{collect_outline_points, CaptureOutcome};
use matrix_io::float64::Float64;
use matrix_io::game::{pick_color, starting_polygon, Game, GameEvent, Packet};
use matrix_io::geometry::{rect_polygon, Territory};
use matrix_io::protocol::{ClientMsg, PlayerId, Position, ServerMsg};
use matrix_io::ranking::{compute_leaderboard, count_below, crown_holder};
use matrix_io::spawn::{SpawnAction, SpawnEvent};
use matrix_io::tick::{Kill, Motion};
use matrix_io::update::{Answer, Phase};

fn number(x: f64) -> Float64 {
    Float64 { bits: x.to_bits() }
}

fn native(x: Float64) -> f64 {
    f64::from_bits(x.bits)
}

fn at(x: f64, y: f64) -> Position {
    Position { x: number(x), y: number(y) }
}

fn place(p: Position) -> (f64, f64) {
    (native(p.x), native(p.y))
}

fn square(min: f64, max: f64) -> Territory {
    Territory { polygons: vec![rect_polygon(number(min), number(min), number(max), number(max))] }
}

/// A player joins; nothing of the others' territories is taken.
fn join(game: &mut Game, p: Position) -> PlayerId {
    let n = game.players.len();
    let left = (0..n).map(|_| None).collect();
    let areas = vec![number(25.0); n + 1];
    game.handle_event(GameEvent::Connect { position: p, left, areas }, 0).unwrap()
}

fn say(game: &mut Game, player_id: PlayerId, msg: ClientMsg, now: u64) {
    assert!(game.handle_event(GameEvent::Input { player_id, msg }, now).is_none());
}

fn kinds(packets: &Vec<Packet>) -> Vec<(Vec<PlayerId>, &'static str)> {
    packets
        .iter()
        .map(|p| {
            let kind = match &p.msg {
                ServerMsg::Welcome { .. } => "welcome",
                ServerMsg::Tick { .. } => "tick",
                ServerMsg::TerritorySnapshot(_) => "snapshot",
                ServerMsg::PlayerKilled { .. } => "killed",
                ServerMsg::Pong(_) => "pong",
                ServerMsg::Leaderboard(_) => "leaderboard",
            };
            (p.recipients.clone(), kind)
        })
        .collect()
}

fn nothing() -> CaptureOutcome {
    CaptureOutcome {
        territory: Territory { polygons: vec![] },
        left: vec![],
        in_capture: vec![],
        in_new: vec![],
        in_own: vec![],
    }
}

/// A tick in which every player moves as told and nobody makes a capture.
fn tick(game: &mut Game, motions: Vec<Motion>, inside: Vec<bool>) -> Vec<u64> {
    assert!(game.has_room());
    let areas = vec![number(25.0); game.players.len()];
    let phase = game.update(Phase::Begin, Answer::Areas(areas), number(0.05), 0);
    let below = match &phase {
        Phase::Move { below } => below.clone(),
        _ => panic!("another phase"),
    };
    let phase = game.update(phase, Answer::Motions(motions), number(0.05), 0);
    assert!(matches!(phase, Phase::Place { .. }));
    let mut phase = game.update(phase, Answer::Inside(inside), number(0.05), 0);
    while let Phase::Capture { .. } = phase {
        phase = game.update(phase, Answer::Outcome(nothing()), number(0.05), 0);
    }
    assert!(matches!(phase, Phase::Done));
    below
}

fn still() -> Motion {
    Motion { cos: number(f64::NAN), sin: number(f64::NAN), factor: number(1.0) }
}

fn east() -> Motion {
    Motion { cos: number(1.0), sin: number(0.0), factor: number(1.0) }
}

#[test]
fn a_new_game_is_empty() {
    let game = Game::new();
    assert!(game.players.is_empty());
    assert_eq!(game.next_id, 1);
    assert_eq!(game.tick_count, 0);
    assert_eq!(game.territory_version, 0);
    assert_eq!(native(game.board_radius), 50.0);
    assert_eq!(native(game.target_board_radius), 50.0);
    assert_eq!(native(game.spatial_hash.cell_size), 500.0);
    assert!(game.has_room());
}

#[test]
fn who_joins_is_welcomed_and_told_of_territories_and_leaders() {
    let mut game = Game::new();
    let id = join(&mut game, at(0.0, 0.0));
    assert_eq!(id, 1);
    assert_eq!(game.next_id, 2);
    assert_eq!(game.territory_version, 1);
    let p = &game.players[0];
    assert!(p.alive && p.in_territory && p.angle.is_nan());
    assert_eq!(p.name, "Player 1");
    assert_eq!(p.color, [52, 152, 219]);
    assert_eq!(p.last_territory_version, 1);
    assert_eq!(
        p.territory.polygons[0].exterior,
        vec![at(-2.5, -2.5), at(2.5, -2.5), at(2.5, 2.5), at(-2.5, 2.5), at(-2.5, -2.5)]
    );
    let packets = game.take_outbox();
    assert_eq!(
        kinds(&packets),
        vec![(vec![1], "welcome"), (vec![1], "snapshot"), (vec![1], "leaderboard")]
    );
    match &packets[0].msg {
        ServerMsg::Welcome { player_id, position, angle, color } => {
            assert_eq!(*player_id, 1);
            assert_eq!(*position, at(0.0, 0.0));
            assert!(angle.is_nan());
            assert_eq!(*color, [52, 152, 219]);
        }
        _ => panic!("another kind of message"),
    }
    match &packets[1].msg {
        ServerMsg::TerritorySnapshot(rings) => {
            assert_eq!(rings.len(), 1);
            assert_eq!(rings[0].player_id, 1);
            assert_eq!(rings[0].points.len(), 5);
        }
        _ => panic!("another kind of message"),
    }
    match &packets[2].msg {
        ServerMsg::Leaderboard(board) => {
            assert_eq!(board.by_area.len(), 1);
            assert_eq!(board.by_area[0].name, "Player 1");
            assert_eq!(board.by_area[0].value, 25);
            assert!(board.by_kills.is_empty());
        }
        _ => panic!("another kind of message"),
    }
    assert!(game.take_outbox().is_empty());
}

#[test]
fn who_joins_takes_ground_from_the_others() {
    let mut game = Game::new();
    join(&mut game, at(0.0, 0.0));
    let left = vec![Some(square(-2.5, 0.0))];
    let areas = vec![number(6.25), number(25.0)];
    let event = GameEvent::Connect { position: at(2.0, 2.0), left, areas };
    assert_eq!(game.handle_event(event, 0), Some(2));
    assert_eq!(game.players[0].territory.polygons[0].exterior[2], at(0.0, 0.0));
    assert_eq!(game.players[1].position, at(2.0, 2.0));
    assert_eq!(game.players[1].territory.polygons[0].exterior[0], at(-0.5, -0.5));
}

#[test]
fn colors_go_round() {
    assert_eq!(pick_color(0), [231, 76, 60]);
    assert_eq!(pick_color(11), [142, 68, 173]);
    assert_eq!(pick_color(12), pick_color(0));
    let seen: Vec<[u8; 3]> = (0..12).map(pick_color).collect();
    assert_eq!(
        seen,
        vec![
            [231, 76, 60],
            [52, 152, 219],
            [46, 204, 113],
            [241, 196, 15],
            [155, 89, 182],
            [230, 126, 34],
            [26, 188, 156],
            [236, 240, 241],
            [52, 73, 94],
            [192, 57, 43],
            [39, 174, 96],
            [142, 68, 173],
        ]
    );
}

#[test]
fn a_leaver_is_gone_and_its_neighbours_see_it() {
    let mut game = Game::new();
    join(&mut game, at(0.0, 0.0));
    join(&mut game, at(300.0, 0.0));
    join(&mut game, at(700.0, 0.0));
    game.take_outbox();
    let version = game.territory_version;
    game.handle_event(GameEvent::Disconnect { player_id: 1 }, 0);
    assert_eq!(game.players.iter().map(|p| p.id).collect::<Vec<_>>(), vec![2, 3]);
    assert_eq!(game.territory_version, version + 1);
    // Only the second is within one and a half times the sight.
    assert_eq!(kinds(&game.take_outbox()), vec![(vec![2], "snapshot")]);
    // One who is not there changes only the version.
    game.handle_event(GameEvent::Disconnect { player_id: 1 }, 0);
    assert_eq!(game.territory_version, version + 2);
    assert!(game.take_outbox().is_empty());
}

#[test]
fn a_snapshot_is_sent_once() {
    let mut game = Game::new();
    join(&mut game, at(0.0, 0.0));
    game.take_outbox();
    game.send_territory_snapshot(1);
    assert!(game.take_outbox().is_empty());
    game.territory_version += 1;
    game.send_territory_snapshot(1);
    game.send_territory_snapshot(1);
    game.send_territory_snapshot(99);
    assert_eq!(kinds(&game.take_outbox()), vec![(vec![1], "snapshot")]);
}

#[test]
fn a_snapshot_holds_what_is_in_sight() {
    let mut game = Game::new();
    join(&mut game, at(0.0, 0.0));
    join(&mut game, at(252.0, 0.0));
    join(&mut game, at(253.0, 0.0));
    game.take_outbox();
    game.territory_version += 1;
    game.send_territory_snapshot(1);
    match &game.take_outbox()[0].msg {
        ServerMsg::TerritorySnapshot(rings) => {
            // The squares start at 249.5 and at 250.5; sight ends at 250.
            assert_eq!(rings.iter().map(|r| r.player_id).collect::<Vec<_>>(), vec![1, 2]);
        }
        _ => panic!("another kind of message"),
    }
}

#[test]
fn turning_outside_makes_a_corner() {
    let mut game = Game::new();
    join(&mut game, at(0.0, 0.0));
    // Inside, no trail.
    say(&mut game, 1, ClientMsg::ChangeDirection(number(1.0)), 0);
    assert_eq!(native(game.players[0].angle), 1.0);
    assert!(game.players[0].trail.is_empty());
    // Outside, near the last corner.
    game.players[0].in_territory = false;
    game.players[0].trail = vec![at(2.5, 0.0)];
    game.players[0].position = at(3.0, 0.0);
    say(&mut game, 1, ClientMsg::ChangeDirection(number(2.0)), 0);
    assert_eq!(game.players[0].trail.len(), 1);
    // Outside, far enough.
    game.players[0].position = at(3.25, 0.0);
    say(&mut game, 1, ClientMsg::ChangeDirection(number(3.0)), 0);
    assert_eq!(game.players[0].trail, vec![at(2.5, 0.0), at(3.25, 0.0)]);
    assert_eq!(native(game.players[0].trail_aabb.unwrap().max_x), 3.25);
    // A standing player makes none.
    game.players[0].angle = number(f64::NAN);
    game.players[0].position = at(9.0, 0.0);
    say(&mut game, 1, ClientMsg::ChangeDirection(number(0.0)), 0);
    assert_eq!(game.players[0].trail.len(), 2);
}

#[test]
fn players_ping_and_dress() {
    let mut game = Game::new();
    join(&mut game, at(0.0, 0.0));
    game.take_outbox();
    say(&mut game, 1, ClientMsg::Ping(number(12.5)), 0);
    say(&mut game, 7, ClientMsg::Ping(number(12.5)), 0);
    let packets = game.take_outbox();
    assert_eq!(kinds(&packets), vec![(vec![1], "pong")]);
    assert!(matches!(packets[0].msg, ServerMsg::Pong(t) if t == number(12.5)));
    say(&mut game, 1, ClientMsg::SetSprite(42), 0);
    assert_eq!(game.players[0].sprite_id, 42);
    say(&mut game, 1, ClientMsg::SetName(String::from("123456789012345678901234567890")), 0);
    assert_eq!(game.players[0].name, "12345678901234567890");
}

#[test]
fn a_boost_takes_a_point_and_lasts_five_seconds() {
    let mut game = Game::new();
    join(&mut game, at(0.0, 0.0));
    say(&mut game, 1, ClientMsg::ActivateBoost, 1000);
    assert_eq!(game.players[0].boost_until, None);
    game.players[0].boost_points = 2;
    say(&mut game, 1, ClientMsg::ActivateBoost, 1000);
    assert_eq!(game.players[0].boost_points, 1);
    assert_eq!(game.players[0].boost_until, Some(5_000_001_000));
    assert!(game.players[0].boost_active(5_000_000_999));
    assert!(!game.players[0].boost_active(5_000_001_000));
}

#[test]
fn a_boost_makes_faster_until_it_ends() {
    let mut game = Game::new();
    join(&mut game, at(0.0, 0.0));
    game.players[0].angle = number(0.0);
    game.players[0].boost_until = Some(10);
    let olds = game.move_players(&vec![east()], number(0.05), 9);
    assert_eq!(olds, vec![Some(at(0.0, 0.0))]);
    assert_eq!(place(game.players[0].position), (12.5 * 1.5 * 0.05, 0.0));
    assert_eq!(game.players[0].boost_until, Some(10));
    game.players[0].position = at(0.0, 0.0);
    game.move_players(&vec![east()], number(0.05), 10);
    assert_eq!(place(game.players[0].position), (12.5 * 0.05, 0.0));
    assert_eq!(game.players[0].boost_until, None);
}

#[test]
fn who_stands_stays() {
    let mut game = Game::new();
    join(&mut game, at(1.0, 2.0));
    assert_eq!(game.move_players(&vec![still()], number(0.05), 0), vec![None]);
    assert_eq!(place(game.players[0].position), (1.0, 2.0));
}

#[test]
fn a_kill_is_credited_and_told() {
    let mut game = Game::new();
    for x in [0.0, 10.0, 240.0, 600.0] {
        join(&mut game, at(x, 0.0));
    }
    game.rebuild_spatial_hash();
    game.take_outbox();
    game.kill_player(1, Some(2));
    assert_eq!(game.players.iter().map(|p| p.id).collect::<Vec<_>>(), vec![2, 3, 4]);
    assert_eq!(game.players[0].kill_count, 1);
    assert_eq!(game.players[0].boost_points, 1);
    let packets = game.take_outbox();
    assert_eq!(
        kinds(&packets),
        vec![
            (vec![1], "killed"),
            (vec![2], "killed"),
            (vec![3], "killed"),
            (vec![2], "snapshot"),
            (vec![3], "snapshot"),
        ]
    );
    assert!(matches!(
        packets[0].msg,
        ServerMsg::PlayerKilled { player_id: 1, killer_id: Some(2) }
    ));
    // Who is not there cannot be killed.
    let version = game.territory_version;
    game.kill_player(1, Some(2));
    assert_eq!(game.players[0].kill_count, 1);
    assert_eq!(game.territory_version, version);
    assert!(game.take_outbox().is_empty());
}

#[test]
fn nobody_has_more_than_three_boost_points() {
    let mut game = Game::new();
    for _ in 0..6 {
        join(&mut game, at(0.0, 0.0));
    }
    for victim in 2..7 {
        game.kill_player(victim, Some(1));
    }
    assert_eq!(game.players.len(), 1);
    assert_eq!(game.players[0].kill_count, 5);
    assert_eq!(game.players[0].boost_points, 3);
}

#[test]
fn ids_go_up_along_the_list() {
    let mut game = Game::new();
    for _ in 0..5 {
        join(&mut game, at(0.0, 0.0));
    }
    game.kill_player(3, None);
    game.handle_event(GameEvent::Disconnect { player_id: 1 }, 0);
    join(&mut game, at(0.0, 0.0));
    assert_eq!(game.players.iter().map(|p| p.id).collect::<Vec<_>>(), vec![2, 4, 5, 6]);
    assert!(game.players.iter().all(|p| p.id < game.next_id));
    assert_eq!(game.find(5), Some(2));
    assert_eq!(game.find(3), None);
}

#[test]
fn the_board_goes_towards_its_target() {
    let mut game = Game::new();
    for _ in 0..4 {
        join(&mut game, at(0.0, 0.0));
    }
    tick(&mut game, vec![still(); 4], vec![true; 4]);
    assert_eq!(game.tick_count, 1);
    assert_eq!(native(game.target_board_radius), 60.0);
    assert_eq!(native(game.board_radius), 50.0 + (60.0 - 50.0) * 0.02);
    let mut game = Game::new();
    join(&mut game, at(0.0, 0.0));
    tick(&mut game, vec![still()], vec![true]);
    assert_eq!(native(game.target_board_radius), 50.0);
}

#[test]
fn leaders_are_faster() {
    let mut game = Game::new();
    for _ in 0..3 {
        join(&mut game, at(0.0, 0.0));
    }
    game.players[0].kill_count = 1;
    game.players[2].kill_count = 4;
    let areas = vec![number(10.0), number(30.0), number(20.0)];
    // By area: second, third, first. By kills: third, first, second.
    assert_eq!(count_below(&game.players, &areas), vec![1, 2, 2]);
    game.players[1].alive = false;
    assert_eq!(count_below(&game.players, &areas), vec![0, 0, 1]);
    let below = tick(&mut game, vec![still(); 3], vec![true; 3]);
    assert_eq!(below.len(), 3);
}

#[test]
fn leaderboards_name_the_first_ten() {
    let mut game = Game::new();
    for _ in 0..12 {
        join(&mut game, at(0.0, 0.0));
    }
    let areas: Vec<Float64> = (0..12).map(|i| number(1.0 + (i % 4) as f64 * 0.75)).collect();
    for i in 0..12 {
        game.players[i].kill_count = (i % 3) as u32;
    }
    let board = compute_leaderboard(&game.players, &areas);
    assert_eq!(board.by_area.len(), 10);
    let names: Vec<&str> = board.by_area.iter().map(|e| e.name.as_str()).collect();
    assert_eq!(
        names,
        vec![
            "Player 4", "Player 8", "Player 12", "Player 3", "Player 7", "Player 11", "Player 2",
            "Player 6", "Player 10", "Player 1",
        ]
    );
    assert_eq!(board.by_area[0].value, 3);
    assert_eq!(board.by_area[9].value, 1);
    assert!(board.by_area.windows(2).all(|w| w[0].value >= w[1].value));
    // Those without a kill are left out.
    assert_eq!(board.by_kills.len(), 8);
    assert!(board.by_kills.windows(2).all(|w| w[0].value >= w[1].value));
    assert!(board.by_kills.iter().all(|e| e.value > 0));
    assert_eq!(crown_holder(&game.players, &areas), Some(4));
    assert_eq!(crown_holder(&vec![], &vec![]), None);
}

#[test]
fn leaving_and_coming_back_makes_a_trail_and_a_capture() {
    let mut game = Game::new();
    join(&mut game, at(0.0, 0.0));
    game.players[0].angle = number(0.0);
    game.players[0].position = at(2.25, 0.0);
    tick(&mut game, vec![east()], vec![false]);
    // The trail starts where the edge was crossed.
    assert!(!game.players[0].in_territory);
    assert_eq!(game.players[0].trail, vec![at(2.5, 0.0)]);
    tick(&mut game, vec![east()], vec![false]);
    assert_eq!(game.players[0].trail.len(), 1);
    // Back with one corner only: the trail is forgotten.
    tick(&mut game, vec![east()], vec![true]);
    assert!(game.players[0].in_territory);
    assert!(game.players[0].trail.is_empty());
    assert!(game.players[0].trail_aabb.is_none());
    // Back with two: a capture is due.
    game.players[0].in_territory = false;
    game.players[0].trail = vec![at(2.5, 0.0), at(5.0, 0.0), at(5.0, 2.0)];
    game.players[0].position = at(3.0, 2.0);
    let west = Motion { cos: number(-1.0), sin: number(0.0), factor: number(1.0) };
    let phase = game.update(Phase::Begin, Answer::Areas(vec![number(25.0)]), number(0.05), 0);
    let phase = game.update(phase, Answer::Motions(vec![west]), number(0.05), 0);
    let phase = game.update(phase, Answer::Inside(vec![true]), number(0.05), 0);
    match &phase {
        Phase::Capture { captures, next, kills } => {
            assert_eq!(*captures, vec![1]);
            assert_eq!(*next, 0);
            assert!(kills.is_empty());
        }
        _ => panic!("another phase"),
    }
    let area = game.capture_area(1).unwrap();
    assert_eq!(area.polygons[0].exterior[3], at(2.5, 2.0));
    let outcome = CaptureOutcome {
        territory: square(-9.0, 9.0),
        left: vec![None],
        in_capture: vec![true],
        in_new: vec![true],
        in_own: vec![false],
    };
    let version = game.territory_version;
    let phase = game.update(phase, Answer::Outcome(outcome), number(0.05), 0);
    assert!(matches!(phase, Phase::Done));
    // The capturer itself is not caught.
    assert_eq!(game.players.len(), 1);
    assert!(game.players[0].trail.is_empty());
    assert_eq!(game.players[0].territory.polygons[0].exterior[0], at(-9.0, -9.0));
    assert_eq!(game.territory_version, version + 1);
}

#[test]
fn whoever_is_caught_in_a_capture_dies() {
    let mut game = Game::new();
    for i in 0..5 {
        join(&mut game, at(i as f64, 0.0));
    }
    game.rebuild_spatial_hash();
    game.players[0].trail = vec![at(2.5, 0.0), at(5.0, 0.0), at(5.0, 2.0), at(2.5, 2.0)];
    game.players[4].alive = false;
    let outcome = CaptureOutcome {
        territory: square(-9.0, 9.0),
        left: vec![None, Some(square(0.0, 1.0)), None, None, None],
        in_capture: vec![true, false, true, false, true],
        in_new: vec![true, true, true, true, true],
        in_own: vec![true, true, true, false, true],
    };
    game.take_outbox();
    game.capture_territory(1, outcome);
    // The second keeps ground under its feet, the third is inside, the fourth is stranded, the
    // fifth is dead already.
    assert_eq!(game.players.iter().map(|p| p.id).collect::<Vec<_>>(), vec![1, 2, 5]);
    assert_eq!(game.players[0].kill_count, 2);
    assert_eq!(game.players[0].boost_points, 2);
    assert_eq!(game.players[1].territory.polygons[0].exterior[0], at(0.0, 0.0));
    assert!(game.players[0].trail.is_empty());
}

#[test]
fn a_trail_that_cuts_off_nothing_is_forgotten() {
    let mut game = Game::new();
    join(&mut game, at(0.0, 0.0));
    game.players[0].territory = Territory { polygons: vec![] };
    game.players[0].trail = vec![at(2.5, 0.0), at(5.0, 0.0)];
    let version = game.territory_version;
    assert!(game.capture_area(1).is_none());
    assert!(game.capture_area(9).is_none());
    game.capture_territory(1, nothing());
    assert!(game.players[0].trail.is_empty());
    assert_eq!(game.territory_version, version);
}

#[test]
fn the_points_of_trail_and_outlines_are_collected() {
    let trail = vec![at(9.0, 9.0)];
    let points = collect_outline_points(&trail, &square(0.0, 1.0));
    assert_eq!(points.len(), 6);
    assert_eq!(points[0], at(9.0, 9.0));
    assert_eq!(points[3], at(1.0, 1.0));
}

#[test]
fn crossing_a_trail_kills_its_owner() {
    let mut game = Game::new();
    join(&mut game, at(0.0, 0.0));
    join(&mut game, at(20.0, 0.0));
    game.players[1].in_territory = false;
    game.players[1].trail = vec![at(1.0, -5.0), at(1.0, 5.0)];
    game.players[1].position = at(9.0, 5.0);
    game.players[0].position = at(2.0, 0.0);
    let kills = game.detect_kills(&vec![Some(at(0.0, 0.0)), None]);
    assert_eq!(kills, vec![Kill { victim: 2, killer: Some(1) }]);
    // The way on from the last corner counts too.
    game.players[0].position = at(5.0, 7.0);
    let kills = game.detect_kills(&vec![Some(at(5.0, 3.0)), None]);
    assert_eq!(kills, vec![Kill { victim: 2, killer: Some(1) }]);
    // Far from the box around the trail nothing happens.
    game.players[0].position = at(2.0, 50.0);
    assert!(game.detect_kills(&vec![Some(at(0.0, 50.0)), None]).is_empty());
    // Who did not move kills nobody.
    game.players[0].position = at(2.0, 0.0);
    assert!(game.detect_kills(&vec![None, None]).is_empty());
}

#[test]
fn crossing_the_own_trail_is_death_but_not_next_to_oneself() {
    let mut game = Game::new();
    join(&mut game, at(0.0, 0.0));
    game.players[0].in_territory = false;
    game.players[0].trail =
        vec![at(0.0, -5.0), at(0.0, 5.0), at(3.0, 5.0), at(3.0, 0.0), at(2.0, 0.0)];
    game.players[0].position = at(-1.0, 0.0);
    let kills = game.detect_kills(&vec![Some(at(1.0, 0.0))]);
    assert_eq!(kills, vec![Kill { victim: 1, killer: None }]);
    // With two sides fewer, the crossed side is next to the player.
    game.players[0].trail = vec![at(0.0, -5.0), at(0.0, 5.0), at(3.0, 5.0)];
    assert!(game.detect_kills(&vec![Some(at(1.0, 0.0))]).is_empty());
}

#[test]
fn kills_are_done_once_and_players_kept_on_the_board() {
    let mut game = Game::new();
    for _ in 0..3 {
        join(&mut game, at(0.0, 0.0));
    }
    game.players[2].position = at(60.0, 80.0);
    let kills = vec![
        Kill { victim: 1, killer: Some(3) },
        Kill { victim: 1, killer: Some(2) },
        Kill { victim: 2, killer: None },
    ];
    game.end_update(&kills);
    assert_eq!(game.players.len(), 1);
    assert_eq!(game.players[0].kill_count, 1);
    assert_eq!(place(game.players[0].position), (30.0, 40.0));
    game.end_update(&vec![]);
    assert_eq!(place(game.players[0].position), (30.0, 40.0));
}

#[test]
fn viewers_are_told_whom_they_see() {
    let mut game = Game::new();
    for x in [0.0, 100.0, 251.0] {
        join(&mut game, at(x, 0.0));
    }
    game.rebuild_spatial_hash();
    game.players[1].in_territory = false;
    game.players[1].trail = vec![at(90.0, 0.0)];
    game.players[1].boost_until = Some(50);
    game.take_outbox();
    game.tick_count = 1;
    game.broadcast(&vec![number(1.0), number(3.0), number(2.0)], 20);
    let packets = game.take_outbox();
    assert_eq!(
        kinds(&packets),
        vec![(vec![1], "tick"), (vec![2], "tick"), (vec![3], "tick")]
    );
    match &packets[0].msg {
        ServerMsg::Tick { players, board_radius } => {
            assert_eq!(native(*board_radius), 50.0);
            assert_eq!(players.iter().map(|p| p.id).collect::<Vec<_>>(), vec![1, 2]);
            assert!(!players[0].has_crown && players[1].has_crown);
            assert!(players[1].boost_active && !players[0].boost_active);
            // A trail is shown up to the player, inside none is.
            assert_eq!(players[1].trail, vec![at(90.0, 0.0), at(100.0, 0.0)]);
            assert!(players[0].trail.is_empty());
        }
        _ => panic!("another kind of message"),
    }
}

#[test]
fn leaderboards_and_territories_are_sent_from_time_to_time() {
    let mut game = Game::new();
    join(&mut game, at(0.0, 0.0));
    join(&mut game, at(10.0, 0.0));
    game.rebuild_spatial_hash();
    game.take_outbox();
    let areas = vec![number(1.0), number(1.0)];
    game.tick_count = 40;
    game.broadcast(&areas, 0);
    assert_eq!(
        kinds(&game.take_outbox()),
        vec![(vec![1], "tick"), (vec![2], "tick"), (vec![1, 2], "leaderboard")]
    );
    game.tick_count = 200;
    game.territory_version += 1;
    game.broadcast(&areas, 0);
    assert_eq!(
        kinds(&game.take_outbox()),
        vec![
            (vec![1], "tick"),
            (vec![1], "snapshot"),
            (vec![2], "tick"),
            (vec![2], "snapshot"),
            (vec![1, 2], "leaderboard"),
        ]
    );
}

#[test]
fn the_first_player_starts_in_the_middle() {
    let game = Game::new();
    let (_, action) = game.find_spawn_position();
    assert_eq!(action, SpawnAction::Settle(at(0.0, 0.0)));
}

#[test]
fn a_place_is_looked_for_around_the_others() {
    let mut game = Game::new();
    join(&mut game, at(0.0, 0.0));
    join(&mut game, at(10.0, 0.0));
    let (mut search, action) = game.find_spawn_position();
    assert_eq!(place(search.centre), (5.0, 0.0));
    // Half of a width of 15 and a height of 5, and 20 more.
    assert_eq!(native(search.reach), 30.0);
    assert_eq!(native(search.limit), 46.5);
    assert_eq!(action, SpawnAction::Draw { reach: number(30.0) });
    // Off the board.
    let action = search.step(SpawnEvent::Drawn { dx: number(42.0), dy: number(0.0) });
    assert_eq!(action, SpawnAction::Draw { reach: number(30.0) });
    assert_eq!(search.tries, 1);
    // On the board, but taken.
    let action = search.step(SpawnEvent::Drawn { dx: number(1.0), dy: number(2.0) });
    assert_eq!(action, SpawnAction::Probe(at(6.0, 2.0)));
    let event = SpawnEvent::Probed { at: at(6.0, 2.0), touched: vec![false, true] };
    assert_eq!(search.step(event), SpawnAction::Draw { reach: number(30.0) });
    // Clear.
    let event = SpawnEvent::Probed { at: at(20.0, 2.0), touched: vec![false, false] };
    assert_eq!(search.step(event), SpawnAction::Settle(at(20.0, 2.0)));
    assert_eq!(search.tries, 2);
}

#[test]
fn after_two_hundred_tries_any_place_will_do() {
    let mut game = Game::new();
    join(&mut game, at(0.0, 0.0));
    let (mut search, mut action) = game.find_spawn_position();
    let mut tries = 0;
    while let SpawnAction::Draw { .. } = action {
        action = search.step(SpawnEvent::Drawn { dx: number(1000.0), dy: number(0.0) });
        tries += 1;
    }
    assert_eq!(tries, 200);
    assert_eq!(action, SpawnAction::FallBack { reach: number(46.5 * 0.8) });
    let event =
        SpawnEvent::Fallen { cos: number(0.0), sin: number(-1.0), distance: number(12.0) };
    assert_eq!(search.step(event), SpawnAction::Settle(at(0.0, -12.0)));
}

#[test]
fn the_starting_square_is_five_wide() {
    let p = starting_polygon(at(1.0, 2.0));
    assert_eq!(
        p.exterior,
        vec![at(-1.5, -0.5), at(3.5, -0.5), at(3.5, 4.5), at(-1.5, 4.5), at(-1.5, -0.5)]
    );
}

#[test]
fn an_answer_to_another_question_changes_nothing() {
    let mut game = Game::new();
    let phase = game.update(Phase::Begin, Answer::Inside(vec![]), number(0.05), 0);
    assert!(matches!(phase, Phase::Begin));
    assert_eq!(game.tick_count, 0);
}

#[test]
fn a_counter_at_its_end_leaves_no_room() {
    let mut game = Game::new();
    join(&mut game, at(0.0, 0.0));
    assert!(game.has_room());
    game.players[0].kill_count = u32::MAX;
    assert!(!game.has_room());
    game.players[0].kill_count = 0;
    game.territory_version = u64::MAX - 1;
    assert!(!game.has_room());
    game.territory_version = u64::MAX - 2;
    assert!(game.has_room());
    game.tick_count = u64::MAX;
    assert!(!game.has_room());
}

#[test]
fn the_board_stays_within_its_limits() {
    let mut game = Game::new();
    for _ in 0..9 {
        join(&mut game, at(0.0, 0.0));
    }
    let mut before = native(game.board_radius);
    for _ in 0..300 {
        tick(&mut game, vec![still(); 9], vec![true; 9]);
        let radius = native(game.board_radius);
        assert!(before <= radius && radius <= native(game.target_board_radius));
        before = radius;
    }
    assert_eq!(native(game.target_board_radius), 90.0);
    assert!(before > 89.0);
    for id in 2..10 {
        game.kill_player(id, None);
    }
    for _ in 0..2000 {
        tick(&mut game, vec![still()], vec![true]);
        let radius = native(game.board_radius);
        assert!(50.0 <= radius && radius <= before);
        before = radius;
    }
    assert!(before < 50.001);
}

#[test]
fn somewhere_to_start_is_left_on_the_smallest_board() {
    let mut game = Game::new();
    join(&mut game, at(0.0, 0.0));
    assert_eq!(native(game.board_radius), 50.0);
    let (mut search, mut action) = game.find_spawn_position();
    while let SpawnAction::Draw { .. } = action {
        action = search.step(SpawnEvent::Drawn { dx: number(1e9), dy: number(1e9) });
    }
    match action {
        SpawnAction::FallBack { reach } => assert!(0.0 < native(reach) && native(reach) < 50.0),
        _ => panic!("another action"),
    }
}

#[test]
fn the_version_of_the_territories_never_goes_down() {
    let mut game = Game::new();
    let mut versions = vec![game.territory_version];
    for i in 0..3 {
        join(&mut game, at(10.0 * i as f64, 0.0));
        versions.push(game.territory_version);
    }
    say(&mut game, 1, ClientMsg::ChangeDirection(number(0.0)), 0);
    assert_eq!(game.territory_version, versions[3]);
    tick(&mut game, vec![still(); 3], vec![true; 3]);
    assert_eq!(game.territory_version, versions[3]);
    game.kill_player(2, Some(1));
    versions.push(game.territory_version);
    game.handle_event(GameEvent::Disconnect { player_id: 3 }, 0);
    versions.push(game.territory_version);
    assert_eq!(versions, vec![0, 1, 2, 3, 4, 5]);
    // A snapshot brings a player up to date.
    game.send_territory_snapshot(1);
    assert_eq!(game.players[0].last_territory_version, 5);
}

#[test]
fn a_death_is_told_to_nobody_twice() {
    let mut game = Game::new();
    for x in [0.0, 10.0, 20.0, 5000.0] {
        join(&mut game, at(x, 0.0));
    }
    game.rebuild_spatial_hash();
    game.take_outbox();
    // The victim and the killer are near the place of death as well.
    game.kill_player(2, Some(1));
    let told: Vec<PlayerId> = game
        .take_outbox()
        .iter()
        .filter(|p| matches!(p.msg, ServerMsg::PlayerKilled { .. }))
        .flat_map(|p| p.recipients.clone())
        .collect();
    for id in [1, 2, 3] {
        assert_eq!(told.iter().filter(|t| **t == id).count(), 1);
    }
    assert!(!told.contains(&4));
}

#[test]
fn the_grid_loses_nobody_in_sight() {
    // Pairs at most 250 apart on each axis, on either side of the edges of cells.
    for (x, y) in [(499.0, 499.0), (-1.0, -1.0), (249.0, 751.0), (1e5, -1e5)] {
        for (dx, dy) in [(200.0, 0.0), (0.0, -200.0), (170.0, 170.0), (-170.0, 170.0)] {
            let mut game = Game::new();
            join(&mut game, at(x, y));
            join(&mut game, at(x + dx, y + dy));
            game.rebuild_spatial_hash();
            assert!(game.spatial_hash.nearby(at(x, y)).contains(&2));
            game.take_outbox();
            game.tick_count = 1;
            game.broadcast(&vec![number(1.0), number(1.0)], 0);
            match &game.take_outbox()[0].msg {
                ServerMsg::Tick { players, .. } => {
                    assert_eq!(players.iter().map(|p| p.id).collect::<Vec<_>>(), vec![1, 2]);
                }
                _ => panic!("another kind of message"),
            }
        }
    }
}

#[test]
fn who_joins_is_the_last_of_the_players() {
    let mut game = Game::new();
    for i in 0..3 {
        join(&mut game, at(i as f64, 0.0));
    }
    let before: Vec<PlayerId> = game.players.iter().map(|p| p.id).collect();
    let id = join(&mut game, at(9.0, 9.0));
    let after: Vec<PlayerId> = game.players.iter().map(|p| p.id).collect();
    assert_eq!(after[..3], before[..]);
    assert_eq!(after[3], id);
    assert_eq!(game.players[3].position, at(9.0, 9.0));
    assert!(game.players[3].alive);
}

#[test]
fn who_is_held_on_the_board_is_no_farther_than_its_edge() {
    let mut game = Game::new();
    join(&mut game, at(0.0, 0.0));
    let radius = native(game.board_radius);
    for (x, y) in [
        (50.0, 0.1),
        (49.999_999_999, 0.7),
        (35.4, 35.4),
        (-1e9, 1e-9),
        (1e200, -1e200),
        (1e300, 1e300),
        (3.0, -4.0),
        (12.3, 77.7),
        (-0.1, -50.000_001),
    ] {
        game.players[0].position = at(x, y);
        game.end_update(&vec![]);
        let (x, y) = place(game.players[0].position);
        assert!(x.abs() <= radius && y.abs() <= radius);
        assert!(x * x + y * y <= radius * radius * (1.0 + 1e-14));
    }
    // Inside, nobody is moved.
    game.players[0].position = at(3.0, -4.0);
    game.end_update(&vec![]);
    assert_eq!(place(game.players[0].position), (3.0, -4.0));
}

#[test]
fn who_is_below_on_both_lists_counts_once() {
    let mut game = Game::new();
    join(&mut game, at(0.0, 0.0));
    join(&mut game, at(50.0, 0.0));
    game.players[0].kill_count = 2;
    assert_eq!(count_below(&game.players, &vec![number(30.0), number(20.0)]), vec![1, 0]);
    // Each is ahead on one list.
    assert_eq!(count_below(&game.players, &vec![number(20.0), number(30.0)]), vec![1, 1]);
    // The leader by area has all the others below, whatever their kills.
    for i in 0..4 {
        join(&mut game, at(i as f64, 0.0));
    }
    for i in 0..6 {
        game.players[i].kill_count = i as u32;
    }
    let areas: Vec<Float64> = (0..6).map(|i| number(100.0 - i as f64)).collect();
    assert_eq!(count_below(&game.players, &areas), vec![5, 5, 5, 5, 5, 5]);
    for i in 0..6 {
        game.players[i].kill_count = 6 - i as u32;
    }
    assert_eq!(count_below(&game.players, &areas), vec![5, 4, 3, 2, 1, 0]);
}

#[test]
fn all_ticks_crown_the_one_with_the_largest_area() {
    let mut game = Game::new();
    for x in [0.0, 10.0, 20.0, 30.0] {
        join(&mut game, at(x, 0.0));
    }
    game.rebuild_spatial_hash();
    game.take_outbox();
    game.tick_count = 40;
    // Two have as much: the lower id wears the crown.
    let areas = vec![number(1.5), number(7.25), number(7.25), number(2.0)];
    game.broadcast(&areas, 0);
    let packets = game.take_outbox();
    let mut ticks = 0;
    for packet in &packets {
        match &packet.msg {
            ServerMsg::Tick { players, .. } => {
                ticks += 1;
                let crowned: Vec<PlayerId> =
                    players.iter().filter(|p| p.has_crown).map(|p| p.id).collect();
                assert_eq!(crowned, vec![2]);
            }
            ServerMsg::Leaderboard(board) => {
                assert_eq!(board.by_area[0].name, "Player 2");
                assert_eq!(board.by_area[0].value, 7);
            }
            _ => panic!("another kind of message"),
        }
    }
    assert_eq!(ticks, 4);
}

#[test]
fn in_a_tick_players_only_leave() {
    let mut game = Game::new();
    for x in [0.0, 10.0, 20.0] {
        join(&mut game, at(x, 0.0));
    }
    // The first crosses the trail of the second on its way.
    game.players[0].angle = number(0.0);
    game.players[1].in_territory = false;
    game.players[1].trail = vec![at(0.25, -5.0), at(0.25, 5.0)];
    let version = game.territory_version;
    let next_id = game.next_id;
    tick(&mut game, vec![east(), still(), still()], vec![true, false, true]);
    assert_eq!(game.players.iter().map(|p| p.id).collect::<Vec<_>>(), vec![1, 3]);
    assert_eq!(game.next_id, next_id);
    assert_eq!(game.players[0].kill_count, 1);
    assert_eq!(game.players[1].kill_count, 0);
    assert!(game.territory_version > version);
    // Who moved is where it went, who did not where it was.
    assert_eq!(place(game.players[0].position), (0.625, 0.0));
    assert_eq!(place(game.players[1].position), (20.0, 0.0));
    assert!(game.players.iter().all(|p| p.alive && p.id >= 1));
}

#[test]
fn who_was_beyond_the_edge_is_on_it_in_the_same_direction() {
    let mut game = Game::new();
    join(&mut game, at(0.0, 0.0));
    let radius = native(game.board_radius);
    for (x, y) in [(300.0, -400.0), (-51.0, 0.0), (36.0, 36.5), (-1e9, 1.0), (-0.0, 77.0)] {
        let (x, y): (f64, f64) = (x, y);
        game.players[0].position = at(x, y);
        game.end_update(&vec![]);
        let (hx, hy) = place(game.players[0].position);
        assert!(((hx * hx + hy * hy).sqrt() - radius).abs() <= 1e-13 * radius);
        assert_eq!(hx.is_sign_negative(), x.is_sign_negative());
        assert_eq!(hy.is_sign_negative(), y.is_sign_negative());
        let dist = (x * x + y * y).sqrt();
        assert!((hx / radius - x / dist).abs() <= 1e-15);
        assert!((hy / radius - y / dist).abs() <= 1e-15);
    }
    // Too far for its distance to be a number: in the middle.
    game.players[0].position = at(1e200, 0.0);
    game.end_update(&vec![]);
    assert_eq!(place(game.players[0].position), (0.0, 0.0));
}

#[test]
fn no_victim_is_credited_twice() {
    let mut game = Game::new();
    for x in [0.0, -0.5, 10.0, 20.0] {
        join(&mut game, at(x, 0.0));
    }
    // The first two both cross the trail of the third on their ways.
    game.players[0].angle = number(0.0);
    game.players[1].angle = number(0.0);
    game.players[0].kill_count = 4;
    game.players[2].in_territory = false;
    game.players[2].trail = vec![at(0.05, -5.0), at(0.05, 5.0)];
    let motions = vec![east(), east(), still(), still()];
    tick(&mut game, motions, vec![true, true, false, true]);
    assert_eq!(game.players.iter().map(|p| p.id).collect::<Vec<_>>(), vec![1, 2, 4]);
    let kills: u32 = game.players.iter().map(|p| p.kill_count).sum();
    assert_eq!(kills, 5);
    assert!(game.players[0].kill_count >= 4);
}
