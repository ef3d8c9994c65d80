use snep::delimiter::{Delim, Delimiter, Direction};
use snep::lexer::{find_delimiter, find_word_start, Lexer, Token};
use snep::loc::Loc;

#[derive(Debug, PartialEq)]
enum Tok {
    Chunk(String),
    Tag(String, char),
}

fn chunk(text: &str) -> Tok {
    Tok::Chunk(text.to_string())
}

fn tag(word: &str, delimiter: char) -> Tok {
    Tok::Tag(word.to_string(), delimiter)
}

fn lex(input: &str) -> Vec<(usize, usize, Tok)> {
    let mut lexer = Lexer::new(input.as_bytes(), Loc::from("f"));
    let mut out = Vec::new();
    while let Some((loc, token)) = lexer.next() {
        assert_eq!(loc.name.as_str(), "f");
        let tok = match token {
            Token::Chunk(text) => Tok::Chunk(String::from_utf8(text.to_vec()).unwrap()),
            Token::Tag(word, delimiter) => {
                Tok::Tag(String::from_utf8(word.to_vec()).unwrap(), delimiter.as_u8() as char)
            }
        };
        out.push((loc.row, loc.col, tok));
    }
    assert!(lexer.next().is_none());
    out
}

fn toks(input: &str) -> Vec<Tok> {
    lex(input).into_iter().map(|(_, _, t)| t).collect()
}

#[test]
fn empty_text_has_no_tokens() {
    assert_eq!(lex(""), vec![]);
}

#[test]
fn text_without_delimiters_is_one_chunk() {
    assert_eq!(lex("just some text"), vec![(0, 0, chunk("just some text"))]);
    assert_eq!(lex("|"), vec![(0, 0, chunk("|"))]);
}

#[test]
fn a_word_before_a_delimiter_is_peeled_off_the_chunk() {
    assert_eq!(
        lex("a(b)c"),
        vec![
            (0, 0, chunk("")),
            (0, 0, tag("a", '(')),
            (0, 2, chunk("")),
            (0, 2, tag("b", ')')),
            (0, 4, chunk("c")),
        ]
    );
}

#[test]
fn no_chunk_follows_the_last_delimiter_at_the_end() {
    assert_eq!(toks("x)"), vec![chunk(""), tag("x", ')')]);
    assert_eq!(toks("()"), vec![chunk(""), tag("", '('), chunk(""), tag("", ')')]);
}

#[test]
fn the_word_is_the_longest_run_of_word_characters() {
    assert_eq!(toks("say hello(x"), vec![chunk("say "), tag("hello", '('), chunk("x")]);
    assert_eq!(toks("a\tb{"), vec![chunk("a\t"), tag("b", '{')]);
    assert_eq!(toks("a\nb["), vec![chunk("a\n"), tag("b", '[')]);
    assert_eq!(toks("k=v=("), vec![chunk(""), tag("k=v=", '(')]);
    assert_eq!(toks("  ("), vec![chunk("  "), tag("", '(')]);
}

#[test]
fn the_word_stops_at_the_escaper_and_takes_it() {
    assert_eq!(toks("foo\\x("), vec![chunk("foo"), tag("\\x", '(')]);
    assert_eq!(toks("\\("), vec![chunk(""), tag("\\", '(')]);
    assert_eq!(toks("a\\b\\c)"), vec![chunk("a\\b"), tag("\\c", ')')]);
    assert_eq!(toks("a \\x)"), vec![chunk("a "), tag("\\x", ')')]);
}

#[test]
fn one_divider_before_the_word_is_dropped() {
    assert_eq!(toks("foo|bar("), vec![chunk("foo"), tag("bar", '(')]);
    assert_eq!(toks("foo|("), vec![chunk("foo"), tag("", '(')]);
    assert_eq!(toks("foo|\\x("), vec![chunk("foo"), tag("\\x", '(')]);
    assert_eq!(toks("|a)"), vec![chunk(""), tag("a", ')')]);
    assert_eq!(toks("foo||bar("), vec![chunk("foo|"), tag("bar", '(')]);
    assert_eq!(toks("a|b c("), vec![chunk("a|b "), tag("c", '(')]);
}

#[test]
fn every_kind_of_delimiter_ends_a_tag() {
    assert_eq!(
        toks("a(b[c{d}e]f)"),
        vec![
            chunk(""),
            tag("a", '('),
            chunk(""),
            tag("b", '['),
            chunk(""),
            tag("c", '{'),
            chunk(""),
            tag("d", '}'),
            chunk(""),
            tag("e", ']'),
            chunk(""),
            tag("f", ')'),
        ]
    );
}

#[test]
fn places_follow_the_characters_read() {
    assert_eq!(
        lex("ab\ncd ef(gh\n\n|ij[k"),
        vec![
            (0, 0, chunk("ab\ncd ")),
            (1, 3, tag("ef", '(')),
            (1, 6, chunk("gh\n\n")),
            (3, 0, tag("ij", '[')),
            (3, 4, chunk("k")),
        ]
    );
}

#[test]
fn a_tag_after_a_divider_is_placed_at_the_divider() {
    assert_eq!(
        lex("foo|bar(x"),
        vec![(0, 0, chunk("foo")), (0, 3, tag("bar", '(')), (0, 8, chunk("x"))]
    );
}

#[test]
fn the_lexer_starts_at_the_place_it_is_given() {
    let mut start = Loc::from("g");
    start.update(b"one\ntw");
    let mut lexer = Lexer::new(b"o a(\nb", start);
    let mut places = Vec::new();
    while let Some((loc, _)) = lexer.next() {
        assert_eq!(loc.name.as_str(), "g");
        places.push((loc.row, loc.col));
    }
    assert_eq!(places, vec![(1, 2), (1, 4), (1, 6)]);
}

#[test]
fn find_delimiter_gives_the_first_one() {
    assert_eq!(find_delimiter(b"ab(c)", 0), Some((2, Delimiter(Direction::Open, Delim::Parenthesis))));
    assert_eq!(find_delimiter(b"ab(c)", 2), Some((2, Delimiter(Direction::Open, Delim::Parenthesis))));
    assert_eq!(find_delimiter(b"ab(c)", 3), Some((4, Delimiter(Direction::Close, Delim::Parenthesis))));
    assert_eq!(find_delimiter(b"ab(c)", 5), None);
    assert_eq!(find_delimiter(b"abc", 0), None);
    assert_eq!(find_delimiter(b"", 0), None);
    assert_eq!(find_delimiter(b"x}", 0), Some((1, Delimiter(Direction::Close, Delim::Brace))));
}

#[test]
fn find_word_start_peels_the_word() {
    assert_eq!(find_word_start(b"say hello(", 0, 9), 4);
    assert_eq!(find_word_start(b"say hello(", 5, 9), 5);
    assert_eq!(find_word_start(b"foo\\x(", 0, 5), 3);
    assert_eq!(find_word_start(b"foo|x(", 0, 5), 4);
    assert_eq!(find_word_start(b"foo (", 0, 4), 4);
    assert_eq!(find_word_start(b"(", 0, 0), 0);
}
