use matrix_io::codec::{
    decode_client_msg, decode_server_msg, encode_client_msg, encode_server_msg, flatten_client_msg,
    flatten_server_msg, read_client_msg, read_server_msg, try_encode_client_msg,
    try_encode_server_msg,
};
use matrix_io::float64::Float64;
use matrix_io::protocol::{
    ClientMsg, LeaderboardData, LeaderboardEntryData, PlayerStateData, Position, ServerMsg,
    TerritoryRingData,
};
use matrix_io::wire::{DecodeError, Flat, BYTES_LIMIT};

fn number(x: f64) -> Float64 {
    Float64 { bits: x.to_bits() }
}

fn at(x: f64, y: f64) -> Position {
    Position { x: number(x), y: number(y) }
}

fn flat(words: Vec<u64>, texts: Vec<&str>) -> Flat {
    Flat { words, texts: texts.into_iter().map(String::from).collect() }
}

fn there_and_back(msg: &ServerMsg) -> ServerMsg {
    decode_server_msg(&encode_server_msg(msg)).unwrap()
}

fn player(id: u64, trail: Vec<Position>) -> PlayerStateData {
    PlayerStateData {
        id,
        position: at(1.5, -2.5),
        angle: number(f64::NAN),
        color: [1, 2, 255],
        trail,
        sprite_id: 77,
        has_crown: id == 3,
        boost_points: 2,
        boost_active: true,
    }
}

#[test]
fn a_welcome_comes_back() {
    let msg = ServerMsg::Welcome {
        player_id: u64::MAX,
        position: at(-0.0, 1e300),
        angle: number(f64::NAN),
        color: [231, 76, 60],
    };
    match there_and_back(&msg) {
        ServerMsg::Welcome { player_id, position, angle, color } => {
            assert_eq!(player_id, u64::MAX);
            assert_eq!(position, at(-0.0, 1e300));
            assert_eq!(angle, number(f64::NAN));
            assert_eq!(color, [231, 76, 60]);
        }
        _ => panic!("another kind of message"),
    }
}

#[test]
fn a_tick_comes_back() {
    let msg = ServerMsg::Tick {
        players: vec![player(3, vec![at(1.0, 2.0), at(3.0, 4.0)]), player(4, vec![])],
        board_radius: number(50.5),
    };
    match there_and_back(&msg) {
        ServerMsg::Tick { players, board_radius } => {
            assert_eq!(board_radius, number(50.5));
            assert_eq!(players.len(), 2);
            assert_eq!(players[0].id, 3);
            assert_eq!(players[0].position, at(1.5, -2.5));
            assert_eq!(players[0].angle, number(f64::NAN));
            assert_eq!(players[0].color, [1, 2, 255]);
            assert_eq!(players[0].trail, vec![at(1.0, 2.0), at(3.0, 4.0)]);
            assert_eq!(players[0].sprite_id, 77);
            assert!(players[0].has_crown);
            assert_eq!(players[0].boost_points, 2);
            assert!(players[0].boost_active);
            assert_eq!(players[1].id, 4);
            assert!(players[1].trail.is_empty());
            assert!(!players[1].has_crown);
        }
        _ => panic!("another kind of message"),
    }
}

#[test]
fn a_snapshot_comes_back() {
    let msg = ServerMsg::TerritorySnapshot(vec![
        TerritoryRingData {
            player_id: 9,
            color: [9, 8, 7],
            points: vec![at(0.0, 0.0), at(1.0, 0.0), at(1.0, 1.0), at(0.0, 0.0)],
            sprite_id: u32::MAX,
        },
        TerritoryRingData { player_id: 10, color: [0, 0, 0], points: vec![], sprite_id: 0 },
    ]);
    match there_and_back(&msg) {
        ServerMsg::TerritorySnapshot(rings) => {
            assert_eq!(rings.len(), 2);
            assert_eq!(rings[0].player_id, 9);
            assert_eq!(rings[0].color, [9, 8, 7]);
            assert_eq!(rings[0].points[2], at(1.0, 1.0));
            assert_eq!(rings[0].points.len(), 4);
            assert_eq!(rings[0].sprite_id, u32::MAX);
            assert_eq!(rings[1].player_id, 10);
        }
        _ => panic!("another kind of message"),
    }
}

#[test]
fn a_death_comes_back_with_or_without_a_killer() {
    for killer in [None, Some(0), Some(12)] {
        let msg = ServerMsg::PlayerKilled { player_id: 5, killer_id: killer };
        match there_and_back(&msg) {
            ServerMsg::PlayerKilled { player_id, killer_id } => {
                assert_eq!(player_id, 5);
                assert_eq!(killer_id, killer);
            }
            _ => panic!("another kind of message"),
        }
    }
}

#[test]
fn a_pong_comes_back() {
    match there_and_back(&ServerMsg::Pong(number(123.25))) {
        ServerMsg::Pong(ts) => assert_eq!(ts, number(123.25)),
        _ => panic!("another kind of message"),
    }
}

#[test]
fn leaderboards_come_back() {
    let msg = ServerMsg::Leaderboard(LeaderboardData {
        by_area: vec![
            LeaderboardEntryData { name: String::from("Zo\u{eb}"), value: 25 },
            LeaderboardEntryData { name: String::new(), value: u32::MAX },
        ],
        by_kills: vec![LeaderboardEntryData { name: String::from("\u{1f451}"), value: 1 }],
    });
    match there_and_back(&msg) {
        ServerMsg::Leaderboard(board) => {
            assert_eq!(board.by_area.len(), 2);
            assert_eq!(board.by_area[0].name, "Zo\u{eb}");
            assert_eq!(board.by_area[0].value, 25);
            assert_eq!(board.by_area[1].name, "");
            assert_eq!(board.by_area[1].value, u32::MAX);
            assert_eq!(board.by_kills.len(), 1);
            assert_eq!(board.by_kills[0].name, "\u{1f451}");
        }
        _ => panic!("another kind of message"),
    }
}

#[test]
fn client_messages_come_back() {
    let bytes = encode_client_msg(&ClientMsg::ChangeDirection(number(f64::NAN)));
    assert!(matches!(decode_client_msg(&bytes), Ok(ClientMsg::ChangeDirection(a)) if a == number(f64::NAN)));
    let bytes = encode_client_msg(&ClientMsg::Ping(number(1.5)));
    assert!(matches!(decode_client_msg(&bytes), Ok(ClientMsg::Ping(a)) if a == number(1.5)));
    let bytes = encode_client_msg(&ClientMsg::SetSprite(4_000_000_000));
    assert!(matches!(decode_client_msg(&bytes), Ok(ClientMsg::SetSprite(4_000_000_000))));
    let bytes = encode_client_msg(&ClientMsg::SetName(String::from("Ren\u{e9}e")));
    assert!(matches!(decode_client_msg(&bytes), Ok(ClientMsg::SetName(n)) if n == "Ren\u{e9}e"));
    let bytes = encode_client_msg(&ClientMsg::ActivateBoost);
    assert!(matches!(decode_client_msg(&bytes), Ok(ClientMsg::ActivateBoost)));
}

#[test]
fn messages_become_words_and_texts() {
    let f = flatten_server_msg(&ServerMsg::PlayerKilled { player_id: 7, killer_id: Some(9) });
    assert_eq!(f.words, vec![3, 7, 1, 9]);
    assert!(f.texts.is_empty());
    let f = flatten_server_msg(&ServerMsg::PlayerKilled { player_id: 7, killer_id: None });
    assert_eq!(f.words, vec![3, 7, 0, 0]);
    let f = flatten_server_msg(&ServerMsg::Leaderboard(LeaderboardData {
        by_area: vec![LeaderboardEntryData { name: String::from("a"), value: 2 }],
        by_kills: vec![LeaderboardEntryData { name: String::from("k"), value: 3 }],
    }));
    assert_eq!(f.words, vec![5, 1, 2, 1, 3]);
    assert_eq!(f.texts, vec!["a", "k"]);
    let f = flatten_server_msg(&ServerMsg::TerritorySnapshot(vec![TerritoryRingData {
        player_id: 1,
        color: [2, 3, 4],
        points: vec![at(0.0, 1.0)],
        sprite_id: 5,
    }]));
    assert_eq!(f.words, vec![2, 1, 1, 2, 3, 4, 5, 1, 0, 1.0f64.to_bits()]);
    let f = flatten_client_msg(&ClientMsg::SetName(String::from("n")));
    assert_eq!(f.words, vec![3]);
    assert_eq!(f.texts, vec!["n"]);
}

#[test]
fn bytes_that_are_no_messages_are_refused() {
    for bytes in [vec![], vec![1, 2, 3], vec![0; 7], vec![255; 64], vec![0; 8]] {
        assert_eq!(decode_server_msg(&bytes).err(), Some(DecodeError::Packing));
        assert_eq!(decode_client_msg(&bytes).err(), Some(DecodeError::Packing));
    }
    let mut bytes = encode_client_msg(&ClientMsg::SetName(String::from("name")));
    bytes.pop();
    assert_eq!(decode_client_msg(&bytes).err(), Some(DecodeError::Packing));
}

#[test]
fn names_that_are_not_utf8_are_refused() {
    let mut bytes = encode_client_msg(&ClientMsg::SetName(String::from("name")));
    let k = bytes.windows(4).position(|w| w == b"name").unwrap();
    bytes[k] = 0xff;
    assert_eq!(decode_client_msg(&bytes).err(), Some(DecodeError::Packing));
}

#[test]
fn unknown_kinds_are_not_in_the_schema() {
    assert_eq!(read_server_msg(&flat(vec![], vec![])).err(), Some(DecodeError::NotInSchema));
    assert_eq!(read_server_msg(&flat(vec![6, 1], vec![])).err(), Some(DecodeError::NotInSchema));
    assert_eq!(read_client_msg(&flat(vec![], vec![])).err(), Some(DecodeError::NotInSchema));
    assert_eq!(read_client_msg(&flat(vec![5], vec![])).err(), Some(DecodeError::NotInSchema));
    let bytes = flat(vec![6], vec![]).to_bytes();
    assert_eq!(decode_server_msg(&bytes).err(), Some(DecodeError::NotInSchema));
}

#[test]
fn words_out_of_place_are_malformed() {
    for (words, texts) in [
        (vec![0, 1, 2, 3, 4, 256, 0, 0], vec![]),
        (vec![0, 1, 2, 3, 4, 5, 6], vec![]),
        (vec![1, 0, 1], vec![]),
        (vec![1, 0, 0, 9], vec![]),
        (vec![1, 0], vec![]),
        (vec![2, u64::MAX], vec![]),
        (vec![2, 1, 1, 2, 3, 4, 5, 1, 0], vec![]),
        (vec![2, 1, 1, 2, 3, 4, 1 << 32, 0], vec![]),
        (vec![3, 7, 2, 9], vec![]),
        (vec![3, 7, 0, 9], vec![]),
        (vec![4, 1, 1], vec![]),
        (vec![4, 1], vec!["x"]),
        (vec![5, 1, 2, 1, 3], vec!["a"]),
        (vec![5, 1, 1 << 32, 0], vec!["a"]),
        (vec![5, 2, 2, 0], vec!["a"]),
        (vec![5, 0], vec![]),
    ] {
        assert_eq!(read_server_msg(&flat(words, texts)).err(), Some(DecodeError::Malformed));
    }
    for (words, texts) in [
        (vec![0], vec![]),
        (vec![1, 2, 3], vec![]),
        (vec![2, 1 << 32], vec![]),
        (vec![3], vec![]),
        (vec![3], vec!["a", "b"]),
        (vec![4], vec!["a"]),
    ] {
        assert_eq!(read_client_msg(&flat(words, texts)).err(), Some(DecodeError::Malformed));
    }
}

#[test]
fn packed_words_and_texts_are_unpacked_again() {
    let many: Vec<u64> = (0..5000).map(|i| i * i).collect();
    let names: Vec<String> = (0..3000).map(|i| i.to_string()).collect();
    let f = Flat { words: many.clone(), texts: names.clone() };
    assert!(f.fits());
    let back = Flat::from_bytes(&f.to_bytes()).unwrap();
    assert_eq!(back.words, many);
    assert_eq!(back.texts, names);
    let empty = Flat { words: vec![], texts: vec![] };
    let back = Flat::from_bytes(&empty.to_bytes()).unwrap();
    assert!(back.words.is_empty() && back.texts.is_empty());
}

#[test]
fn messages_of_ordinary_size_are_encoded() {
    let msg = ServerMsg::Pong(number(1.0));
    assert_eq!(try_encode_server_msg(&msg), Some(encode_server_msg(&msg)));
    let msg = ClientMsg::SetName(String::from("x"));
    assert_eq!(try_encode_client_msg(&msg), Some(encode_client_msg(&msg)));
}

#[test]
fn bytes_that_end_early_are_refused() {
    let board = LeaderboardData {
        by_area: vec![
            LeaderboardEntryData { name: String::from("Ada"), value: 3 },
            LeaderboardEntryData { name: String::from("\u{1F451} Grace"), value: 2 },
        ],
        by_kills: vec![],
    };
    let bytes = encode_server_msg(&ServerMsg::Leaderboard(board));
    assert!(decode_server_msg(&bytes).is_ok());
    for k in 0..bytes.len() {
        assert!(matches!(decode_server_msg(&bytes[..k]), Err(DecodeError::Packing)));
    }
    let bytes = encode_client_msg(&ClientMsg::SetName(String::from("Ada")));
    assert!(decode_client_msg(&bytes).is_ok());
    for k in 0..bytes.len() {
        assert!(matches!(decode_client_msg(&bytes[..k]), Err(DecodeError::Packing)));
    }
}

#[test]
fn words_and_texts_take_at_least_their_room() {
    for (words, texts) in [
        (vec![], vec![]),
        (vec![1, 2, 3], vec!["", "a", "\u{1F451}\u{1F451}"]),
        (vec![0; 5000], vec!["name"; 3000]),
    ] {
        let f = flat(words, texts);
        let bytes = f.to_bytes();
        let characters: usize = f.texts.iter().map(|t| t.chars().count()).sum();
        assert!(bytes.len() >= 8 * f.words.len() + 8 * f.texts.len() + characters);
        assert!(bytes.len() <= BYTES_LIMIT);
        let back = Flat::from_bytes(&bytes).unwrap();
        assert_eq!(back.words, f.words);
        assert_eq!(back.texts, f.texts);
        for k in [0, 1, 7, 8, 9, bytes.len() / 2, bytes.len() - 8, bytes.len() - 1] {
            assert!(Flat::from_bytes(&bytes[..k]).is_err());
        }
    }
}

#[test]
fn a_message_of_a_mebibyte_comes_back() {
    // Four bytes to a character, as many as there is room for.
    let name: String = (0..250_000).map(|_| '\u{1F451}').collect();
    let bytes = encode_client_msg(&ClientMsg::SetName(name.clone()));
    assert!(bytes.len() <= 1 << 20);
    match decode_client_msg(&bytes) {
        Ok(ClientMsg::SetName(back)) => assert_eq!(back, name),
        _ => panic!("another message"),
    }
    // Many short texts, near the limit of what is unpacked again.
    let f = flat(vec![], vec!["ab"; 690_000]);
    let bytes = f.to_bytes();
    assert!(bytes.len() <= BYTES_LIMIT);
    assert_eq!(Flat::from_bytes(&bytes).unwrap().texts.len(), 690_000);
    let f = flat(vec![7; 2_000_000], vec![]);
    let bytes = f.to_bytes();
    assert!(bytes.len() <= BYTES_LIMIT);
    assert_eq!(Flat::from_bytes(&bytes).unwrap().words.len(), 2_000_000);
    let long: String = (0..4_190_000).map(|_| '\u{1F451}').collect();
    let f = flat(vec![], vec![long.as_str()]);
    let bytes = f.to_bytes();
    assert!(bytes.len() <= BYTES_LIMIT);
    assert_eq!(Flat::from_bytes(&bytes).unwrap().texts[0], long);
}

#[test]
fn what_follows_words_and_texts_is_not_read() {
    let f = flat(vec![9, 8, 7], vec!["Ada", "\u{1F451}"]);
    let mut bytes = f.to_bytes();
    let more = flat(vec![1], vec!["Grace"]).to_bytes();
    bytes.extend(&more);
    let back = Flat::from_bytes(&bytes).unwrap();
    assert_eq!(back.words, vec![9, 8, 7]);
    assert_eq!(back.texts, vec!["Ada", "\u{1F451}"]);
    // Words alone are no message.
    let alone = flat(vec![9, 8, 7], vec![]).to_bytes();
    let longer = flat(vec![9, 8, 7], vec!["a text"]).to_bytes();
    let shared = alone.iter().zip(&longer).take_while(|(a, b)| a == b).count();
    assert!(Flat::from_bytes(&longer[..shared]).is_err());
}
