//! Numbers and colors as text.
use vstd::prelude::*;

verus! {

/// The character of a decimal digit.
pub open spec fn digit_char(d: nat) -> char {
    (48 + d) as char
}

/// A number in decimal, without leading zeros.
pub open spec fn decimal(n: nat) -> Seq<char>
    decreases n,
{
    if n < 10 {
        seq![digit_char(n)]
    } else {
        decimal(n / 10).push(digit_char(n % 10))
    }
}

fn digit_text(d: u64) -> (r: &'static str)
    requires
        d < 10,
    ensures
        r@ == seq![digit_char(d as nat)],
{
    proof {
        reveal_strlit("0");
        reveal_strlit("1");
        reveal_strlit("2");
        reveal_strlit("3");
        reveal_strlit("4");
        reveal_strlit("5");
        reveal_strlit("6");
        reveal_strlit("7");
        reveal_strlit("8");
        reveal_strlit("9");
    }
    let r = match d {
        0 => "0",
        1 => "1",
        2 => "2",
        3 => "3",
        4 => "4",
        5 => "5",
        6 => "6",
        7 => "7",
        8 => "8",
        _ => "9",
    };
    proof {
        assert(r@ =~= seq![digit_char(d as nat)]);
    }
    r
}

/// Write a number in decimal at the end of a text.
pub fn push_decimal(out: &mut String, n: u64)
    ensures
        final(out)@ == old(out)@ + decimal(n as nat),
    decreases n,
{
    if n >= 10 {
        push_decimal(out, n / 10);
    }
    out.append(digit_text(n % 10));
    proof {
        assert(out@ =~= old(out)@ + decimal(n as nat));
    }
}

/// The first characters of a text, at most as many as given.
pub open spec fn shortened(text: Seq<char>, most: nat) -> Seq<char> {
    if text.len() <= most {
        text
    } else {
        text.take(most as int)
    }
}

/// The first characters of a text, at most as many as given.
pub fn shorten(text: &String, most: usize) -> (r: String)
    ensures
        r@ == shortened(text@, most as nat),
{
    if text.as_str().unicode_len() <= most {
        text.clone()
    } else {
        text.as_str().substring_char(0, most).to_owned()
    }
}

/// The name that a player has until it chooses one.
pub open spec fn first_name(id: u64) -> Seq<char> {
    "Player "@ + decimal(id as nat)
}

/// The name that a player has until it chooses one.
pub fn name_of(id: u64) -> (r: String)
    ensures
        r@ == first_name(id),
{
    let mut r = String::from_str("Player ");
    push_decimal(&mut r, id);
    r
}

/// A color between two texts, its parts in decimal with commas between them.
pub open spec fn color_between(before: Seq<char>, color: [u8; 3], after: Seq<char>) -> Seq<char> {
    before + decimal(color[0] as nat) + ","@ + decimal(color[1] as nat) + ","@ + decimal(
        color[2] as nat,
    ) + after
}

/// A color between two texts, its parts in decimal with commas between them.
pub fn color_text(before: &str, color: [u8; 3], after: &str) -> (r: String)
    ensures
        r@ == color_between(before@, color, after@),
{
    let mut r = String::from_str(before);
    push_decimal(&mut r, color[0] as u64);
    r.append(",");
    push_decimal(&mut r, color[1] as u64);
    r.append(",");
    push_decimal(&mut r, color[2] as u64);
    r.append(after);
    r
}

/// The value of a decimal digit.
pub open spec fn digit_value(c: char) -> Option<nat> {
    if 48 <= c as int && c as int <= 57 {
        Some((c as int - 48) as nat)
    } else {
        None
    }
}

/// The value of a text of decimal digits; of an empty text, zero.
pub open spec fn digits_value(s: Seq<char>) -> Option<nat>
    decreases s.len(),
{
    if s.len() == 0 {
        Some(0)
    } else {
        match (digits_value(s.drop_last()), digit_value(s.last())) {
            (Some(n), Some(d)) => Some(10 * n + d),
            _ => None,
        }
    }
}

/// The number that a text tells: decimal digits, with a plus before them or not.
pub open spec fn number_in(s: Seq<char>) -> Option<nat> {
    let digits = if s.len() > 1 && s[0] == '+' {
        s.skip(1)
    } else {
        s
    };
    if digits.len() == 0 {
        None
    } else {
        digits_value(digits)
    }
}

proof fn lemma_digits_value_grows(s: Seq<char>, k: int)
    requires
        0 <= k <= s.len(),
    ensures
        digits_value(s.take(k)) is None ==> digits_value(s) is None,
        digits_value(s) matches Some(n) ==> digits_value(s.take(k)).unwrap() <= n,
    decreases s.len() - k,
{
    if k == s.len() {
        assert(s.take(k) =~= s);
    } else {
        lemma_digits_value_grows(s, k + 1);
        assert(s.take(k + 1).drop_last() =~= s.take(k));
    }
}

/// Read a number of at most 32 bits.
pub fn parse_u32(text: &str) -> (r: Option<u32>)
    ensures
        match number_in(text@) {
            Some(n) => if n <= u32::MAX {
                r matches Some(m) && m == n
            } else {
                r is None
            },
            None => r is None,
        },
{
    let len = text.unicode_len();
    let start: usize = if len > 1 && text.get_char(0) == '+' {
        1
    } else {
        0
    };
    if len == start {
        return None;
    }
    let ghost digits = text@.skip(start as int);
    proof {
        assert(digits.take(0) =~= Seq::empty());
        assert(number_in(text@) == digits_value(digits)) by {
            assert(text@.skip(0) =~= text@);
        }
    }
    let mut n: u64 = 0;
    let mut i: usize = start;
    while i < len
        invariant
            start <= i <= len == text@.len(),
            digits == text@.skip(start as int),
            number_in(text@) == digits_value(digits),
            digits_value(digits.take(i - start)) == Some(n as nat),
            n <= u32::MAX,
        decreases len - i,
    {
        let c = text.get_char(i);
        proof {
            assert(digits.take(i + 1 - start).drop_last() =~= digits.take(i - start));
            assert(digits.take(i + 1 - start).last() == c);
            lemma_digits_value_grows(digits, i + 1 - start);
        }
        let code = c as u32;
        if code < 48 || code > 57 {
            return None;
        }
        n = 10 * n + (code - 48) as u64;
        if n > u32::MAX as u64 {
            return None;
        }
        i += 1;
    }
    proof {
        assert(digits.take(i - start) =~= digits);
    }
    Some(n as u32)
}

/// A number is read back from its decimal text.
pub proof fn lemma_decimal_read_back(n: nat)
    ensures
        number_in(decimal(n)) == Some(n),
{
    lemma_decimal_value(n);
    let s = decimal(n);
    if s.len() > 1 && s[0] == '+' {
        lemma_digits_value_grows(s, 1);
        assert(s.take(1).drop_last() =~= Seq::empty());
        assert(s.take(1).last() == '+');
        assert(digits_value(s.take(1)) is None);
    }
}

proof fn lemma_decimal_value(n: nat)
    ensures
        digits_value(decimal(n)) == Some(n),
        decimal(n).len() > 0,
    decreases n,
{
    let s = decimal(n);
    if n < 10 {
        assert(s.drop_last() =~= Seq::empty());
        assert(digits_value(s.drop_last()) == Some(0nat));
        assert(digit_value(s.last()) == Some(n));
    } else {
        lemma_decimal_value(n / 10);
        assert(s.drop_last() =~= decimal(n / 10));
        assert(digit_value(s.last()) == Some(n % 10));
        assert(10 * (n / 10) + n % 10 == n);
    }
}

/// Whether a character is white space.
pub open spec fn is_white(c: char) -> bool {
    let n = c as int;
    ||| 9 <= n <= 13
    ||| n == 32
    ||| n == 0x85
    ||| n == 0xa0
    ||| n == 0x1680
    ||| 0x2000 <= n <= 0x200a
    ||| n == 0x2028
    ||| n == 0x2029
    ||| n == 0x202f
    ||| n == 0x205f
    ||| n == 0x3000
}

/// A text without white space at its ends.
pub open spec fn trimmed(s: Seq<char>) -> Seq<char>
    decreases s.len(),
{
    if s.len() == 0 {
        s
    } else if is_white(s.last()) {
        trimmed(s.drop_last())
    } else if is_white(s[0]) {
        trimmed(s.skip(1))
    } else {
        s
    }
}

fn white(c: char) -> (r: bool)
    ensures
        r == is_white(c),
{
    let n = c as u32;
    (9 <= n && n <= 13) || n == 32 || n == 0x85 || n == 0xa0 || n == 0x1680 || (0x2000 <= n && n
        <= 0x200a) || n == 0x2028 || n == 0x2029 || n == 0x202f || n == 0x205f || n == 0x3000
}

/// Take away the white space at the ends of a text.
pub fn trim(text: &str) -> (r: String)
    ensures
        r@ == trimmed(text@),
{
    let len = text.unicode_len();
    let mut end: usize = len;
    proof {
        assert(text@.subrange(0, len as int) =~= text@);
    }
    while end > 0 && white(text.get_char(end - 1))
        invariant
            end <= len == text@.len(),
            trimmed(text@.subrange(0, end as int)) == trimmed(text@),
        decreases end,
    {
        proof {
            assert(text@.subrange(0, end as int).drop_last() =~= text@.subrange(0, end - 1));
        }
        end -= 1;
    }
    let mut start: usize = 0;
    while start < end && white(text.get_char(start))
        invariant
            start <= end <= len == text@.len(),
            end > 0 ==> !is_white(text@[end - 1]),
            trimmed(text@.subrange(start as int, end as int)) == trimmed(text@),
        decreases end - start,
    {
        proof {
            assert(text@.subrange(start as int, end as int).skip(1) =~= text@.subrange(
                start + 1,
                end as int,
            ));
            assert(text@.subrange(start as int, end as int).last() == text@[end - 1]);
        }
        start += 1;
    }
    proof {
        let s = text@.subrange(start as int, end as int);
        if s.len() > 0 {
            assert(s.last() == text@[end - 1]);
            assert(s[0] == text@[start as int]);
        }
    }
    text.substring_char(start, end).to_owned()
}

/// Whether a text is the part of another from `a` up to `b`, with nothing but white space before
/// and after it there.
pub open spec fn is_core(part: Seq<char>, s: Seq<char>, a: int, b: int) -> bool {
    &&& 0 <= a <= b <= s.len()
    &&& part == s.subrange(a, b)
    &&& forall|i: int| (0 <= i < a || b <= i < s.len()) ==> is_white(#[trigger] s[i])
}

/// To trim a text takes away the white space at both ends and nothing else: what is left neither
/// begins nor ends with white space, and stands in the text between white space.
pub proof fn lemma_trimmed_at_both_ends(s: Seq<char>)
    ensures
        trimmed(s).len() > 0 ==> !is_white(trimmed(s)[0]) && !is_white(trimmed(s).last()),
        exists|a: int, b: int| #[trigger] is_core(trimmed(s), s, a, b),
    decreases s.len(),
{
    if s.len() > 0 && is_white(s.last()) {
        let shorter = s.drop_last();
        lemma_trimmed_at_both_ends(shorter);
        let (a, b) = choose|a: int, b: int| #[trigger] is_core(trimmed(shorter), shorter, a, b);
        assert(shorter.subrange(a, b) =~= s.subrange(a, b));
        assert forall|i: int| (0 <= i < a || b <= i < s.len()) implies is_white(
            #[trigger] s[i],
        ) by {
            if i < shorter.len() {
                assert(shorter[i] == s[i]);
            }
        }
        assert(is_core(trimmed(s), s, a, b));
    } else if s.len() > 0 && is_white(s[0]) {
        let shorter = s.skip(1);
        lemma_trimmed_at_both_ends(shorter);
        let (a, b) = choose|a: int, b: int| #[trigger] is_core(trimmed(shorter), shorter, a, b);
        assert(shorter.subrange(a, b) =~= s.subrange(a + 1, b + 1));
        assert forall|i: int| (0 <= i < a + 1 || b + 1 <= i < s.len()) implies is_white(
            #[trigger] s[i],
        ) by {
            if i > 0 {
                assert(shorter[i - 1] == s[i]);
            }
        }
        assert(is_core(trimmed(s), s, a + 1, b + 1));
    } else {
        assert(s.subrange(0, s.len() as int) =~= s);
        assert(is_core(trimmed(s), s, 0, s.len() as int));
    }
}

/// Of the characters of seven bits, white space are the space and the five controls from the tab
/// on.
pub proof fn lemma_white_space(c: char)
    requires
        c as int <= 127,
    ensures
        is_white(c) == (c == ' ' || c == '\t' || c == '\n' || c as int == 11 || c as int == 12 || c
            == '\r'),
{
}

/// The address of the game's socket on a host, secure where the page is.
pub open spec fn socket_address(protocol: Seq<char>, host: Seq<char>) -> Seq<char> {
    (if protocol == "https:"@ {
        "wss:"@
    } else {
        "ws:"@
    }) + "//"@ + host + "/ws"@
}

/// The address of the game's socket on a host, secure where the page is.
pub fn socket_url(protocol: &str, host: &str) -> (r: String)
    ensures
        r@ == socket_address(protocol@, host@),
{
    let mut r = if same_text(protocol, "https:") {
        String::from_str("wss:")
    } else {
        String::from_str("ws:")
    };
    r.append("//");
    r.append(host);
    r.append("/ws");
    r
}

/// Whether two texts are the same.
pub fn same_text(a: &str, b: &str) -> (r: bool)
    ensures
        r == (a@ == b@),
{
    let len = a.unicode_len();
    if len != b.unicode_len() {
        return false;
    }
    let mut i: usize = 0;
    while i < len
        invariant
            i <= len == a@.len() == b@.len(),
            forall|j: int| 0 <= j < i ==> a@[j] == b@[j],
        decreases len - i,
    {
        if a.get_char(i) != b.get_char(i) {
            return false;
        }
        i += 1;
    }
    proof {
        assert(a@ =~= b@);
    }
    true
}

}
