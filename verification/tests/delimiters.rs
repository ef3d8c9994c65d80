use snep::delimiter::{Delim, Delimiter, Direction};
use snep::text::{is_ascii_space, is_literal, is_word_char, write_decimal, DIVIDER, ESCAPER};

const KINDS: [Delim; 3] = [Delim::Parenthesis, Delim::Bracket, Delim::Brace];

#[test]
fn open_and_close_give_the_two_directions() {
    for kind in KINDS {
        assert_eq!(kind.open(), Delimiter(Direction::Open, kind));
        assert_eq!(kind.close(), Delimiter(Direction::Close, kind));
    }
}

#[test]
fn each_delimiter_has_its_character() {
    assert_eq!(Delim::Parenthesis.open().as_u8(), b'(');
    assert_eq!(Delim::Parenthesis.close().as_u8(), b')');
    assert_eq!(Delim::Bracket.open().as_u8(), b'[');
    assert_eq!(Delim::Bracket.close().as_u8(), b']');
    assert_eq!(Delim::Brace.open().as_u8(), b'{');
    assert_eq!(Delim::Brace.close().as_u8(), b'}');
}

#[test]
fn as_bytes_is_the_one_character() {
    assert_eq!(Delim::Parenthesis.open().as_bytes(), b"(");
    assert_eq!(Delim::Parenthesis.close().as_bytes(), b")");
    assert_eq!(Delim::Bracket.open().as_bytes(), b"[");
    assert_eq!(Delim::Bracket.close().as_bytes(), b"]");
    assert_eq!(Delim::Brace.open().as_bytes(), b"{");
    assert_eq!(Delim::Brace.close().as_bytes(), b"}");
    for kind in KINDS {
        for d in [kind.open(), kind.close()] {
            assert_eq!(d.as_bytes(), [d.as_u8()]);
            let text: &'static [u8] = d.as_bytes();
            assert_eq!(text.len(), 1);
        }
    }
}

#[test]
fn try_from_reads_the_six_characters_and_no_other() {
    assert_eq!(Delimiter::try_from(b'('), Ok(Delimiter(Direction::Open, Delim::Parenthesis)));
    assert_eq!(Delimiter::try_from(b')'), Ok(Delimiter(Direction::Close, Delim::Parenthesis)));
    assert_eq!(Delimiter::try_from(b'['), Ok(Delimiter(Direction::Open, Delim::Bracket)));
    assert_eq!(Delimiter::try_from(b']'), Ok(Delimiter(Direction::Close, Delim::Bracket)));
    assert_eq!(Delimiter::try_from(b'{'), Ok(Delimiter(Direction::Open, Delim::Brace)));
    assert_eq!(Delimiter::try_from(b'}'), Ok(Delimiter(Direction::Close, Delim::Brace)));
    let mut count = 0;
    for c in 0..=255u8 {
        match Delimiter::try_from(c) {
            Ok(d) => {
                count += 1;
                assert_eq!(d.as_u8(), c);
                assert!(Delimiter::is_delimiter(c));
            }
            Err(()) => assert!(!Delimiter::is_delimiter(c)),
        }
    }
    assert_eq!(count, 6);
    assert_eq!(Delimiter::try_from(b'x'), Err(()));
    assert_eq!(Delimiter::try_from(b'<'), Err(()));
}

#[test]
fn not_inverts_the_direction() {
    assert_eq!(!Direction::Open, Direction::Close);
    assert_eq!(!Direction::Close, Direction::Open);
    assert_eq!(!!Direction::Open, Direction::Open);
}

#[test]
fn inverting_the_direction_keeps_the_kind() {
    for kind in KINDS {
        let Delimiter(direction, same) = kind.open();
        assert_eq!(Delimiter(!direction, same), kind.close());
    }
}

#[test]
fn ascii_space_is_space_and_tab_to_carriage_return() {
    for c in 0..=255u8 {
        let expected = c == b' ' || c == b'\t' || c == b'\n' || c == 0x0b || c == 0x0c || c == b'\r';
        assert_eq!(is_ascii_space(c), expected, "byte {}", c);
    }
}

#[test]
fn word_characters_leave_out_space_divider_escaper_and_delimiters() {
    assert_eq!(ESCAPER, b'\\');
    assert_eq!(DIVIDER, b'|');
    for c in 0..=255u8 {
        let expected = !(is_ascii_space(c) || c == b'|' || c == b'\\' || b"()[]{}".contains(&c));
        assert_eq!(is_word_char(c), expected, "byte {}", c);
    }
    assert!(is_word_char(b'a'));
    assert!(is_word_char(b'='));
    assert!(is_word_char(0xff));
    assert!(!is_word_char(b'('));
    assert!(!is_word_char(b'|'));
}

#[test]
fn a_name_is_literal_if_it_begins_with_the_escaper() {
    assert!(is_literal(b"\\"));
    assert!(is_literal(b"\\x"));
    assert!(!is_literal(b""));
    assert!(!is_literal(b"x\\"));
    assert!(!is_literal(b"x"));
}

#[test]
fn decimal_digits_are_exact() {
    for (n, text) in [
        (0u128, "0"),
        (7, "7"),
        (10, "10"),
        (99, "99"),
        (100, "100"),
        (12345, "12345"),
        (18446744073709551616, "18446744073709551616"),
        (u128::MAX, "340282366920938463463374607431768211455"),
    ] {
        let mut out = b"n=".to_vec();
        write_decimal(&mut out, n);
        assert_eq!(out, format!("n={}", text).into_bytes());
    }
}
