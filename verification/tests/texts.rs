use matrix_io::text::{
    color_text, name_of, parse_u32, push_decimal, same_text, shorten, socket_url, trim,
};

fn decimal(n: u64) -> String {
    let mut s = String::new();
    push_decimal(&mut s, n);
    s
}

#[test]
fn numbers_are_written_in_decimal() {
    for n in [0, 7, 10, 99, 100, 12345, 4294967295, u64::MAX] {
        assert_eq!(decimal(n), n.to_string());
    }
    let mut s = String::from("x");
    push_decimal(&mut s, 42);
    assert_eq!(s, "x42");
}

#[test]
fn a_number_is_read_back_from_its_decimal_text() {
    for n in [0u32, 7, 10, 99, 100, 12345, 4294967295] {
        assert_eq!(parse_u32(&decimal(n as u64)), Some(n));
    }
}

#[test]
fn numbers_are_read_as_the_standard_library_reads_them() {
    for text in [
        "", "+", "-", "0", "007", "+12", "++1", "-0", " 1", "1 ", "12a", "4294967295",
        "4294967296", "99999999999999999999999", "+4294967295", "\u{663}",
    ] {
        assert_eq!(parse_u32(text), text.parse::<u32>().ok(), "{:?}", text);
    }
}

#[test]
fn white_space_is_taken_from_the_ends() {
    for text in [
        "", " ", "a", " a ", "\t a b \n", "\u{3000}name\u{a0}", "\u{2003}\u{2009}x", "no\u{200b}",
        "\u{200b} y", "\u{85}z\u{1680}", "\u{2028}\u{2029}\u{202f}\u{205f}",
    ] {
        assert_eq!(trim(text), text.trim(), "{:?}", text);
    }
    for n in 0..=0x10ffffu32 {
        if let Some(c) = char::from_u32(n) {
            if c.is_whitespace() || n < 0x100 {
                let text = c.to_string();
                assert_eq!(trim(&text), text.trim(), "{:x}", n);
            }
        }
    }
}

#[test]
fn texts_are_shortened_by_characters() {
    assert_eq!(shorten(&String::from("abcdef"), 3), "abc");
    assert_eq!(shorten(&String::from("abc"), 3), "abc");
    assert_eq!(shorten(&String::from("ab"), 3), "ab");
    assert_eq!(shorten(&String::from("\u{e9}\u{1f451}\u{e8}z"), 3), "\u{e9}\u{1f451}\u{e8}");
    assert_eq!(shorten(&String::from(""), 0), "");
}

#[test]
fn first_names_tell_the_id() {
    assert_eq!(name_of(1), "Player 1");
    assert_eq!(name_of(1207), "Player 1207");
}

#[test]
fn colors_are_written_with_commas() {
    assert_eq!(color_text("rgba(", [231, 76, 0], ",0.35)"), "rgba(231,76,0,0.35)");
}

#[test]
fn the_socket_is_secure_where_the_page_is() {
    assert_eq!(socket_url("https:", "example.org"), "wss://example.org/ws");
    assert_eq!(socket_url("http:", "localhost:3000"), "ws://localhost:3000/ws");
    assert_eq!(socket_url("https", "h"), "ws://h/ws");
}

#[test]
fn texts_are_compared_character_by_character() {
    assert!(same_text("", ""));
    assert!(same_text("ArrowUp", "ArrowUp"));
    assert!(!same_text("ArrowUp", "ArrowUP"));
    assert!(!same_text("Arrow", "ArrowUp"));
}
