//! The three kinds of bracket, each in its opening and its closing form.

use vstd::prelude::*;
use vstd::utf8::{encode_utf8, is_ascii_chars, is_ascii_chars_encode_utf8};

verus! {

/// Whether a delimiter begins an element or ends it.
#[derive(Clone, Copy, Debug, PartialEq, Eq, Structural)]
pub enum Direction {
    Open,
    Close,
}

impl Direction {
    /// The other direction.
    pub open spec fn flipped(self) -> Direction {
        match self {
            Direction::Open => Direction::Close,
            Direction::Close => Direction::Open,
        }
    }
}

impl core::ops::Not for Direction {
    type Output = Direction;

    fn not(self) -> (r: Direction) {
        match self {
            Direction::Open => Direction::Close,
            Direction::Close => Direction::Open,
        }
    }
}

impl vstd::std_specs::ops::NotSpecImpl for Direction {
    open spec fn obeys_not_spec() -> bool {
        true
    }

    open spec fn not_req(self) -> bool {
        true
    }

    open spec fn not_spec(self) -> Direction {
        self.flipped()
    }
}

/// The kind of bracket that delimits an element.
#[derive(Clone, Copy, Debug, PartialEq, Eq, Structural)]
pub enum Delim {
    Parenthesis,
    Bracket,
    Brace,
}

impl Delim {
    /// The delimiter that opens an element of this kind.
    pub fn open(self) -> (r: Delimiter)
        ensures
            r == Delimiter(Direction::Open, self),
    {
        Delimiter(Direction::Open, self)
    }

    /// The delimiter that closes an element of this kind.
    pub fn close(self) -> (r: Delimiter)
        ensures
            r == Delimiter(Direction::Close, self),
    {
        Delimiter(Direction::Close, self)
    }
}

/// One bracket character: a direction and a kind.
#[derive(Clone, Copy, Debug, PartialEq, Eq, Structural)]
pub struct Delimiter(pub Direction, pub Delim);

/// Whether `c` is one of the six bracket characters.
pub open spec fn is_delimiter_byte(c: u8) -> bool {
    c == 40 || c == 41 || c == 91 || c == 93 || c == 123 || c == 125
}

/// The delimiter that the character `c` writes, if it writes one.
pub open spec fn delimiter_of_byte(c: u8) -> Option<Delimiter> {
    if c == 40 {
        Some(Delimiter(Direction::Open, Delim::Parenthesis))
    } else if c == 41 {
        Some(Delimiter(Direction::Close, Delim::Parenthesis))
    } else if c == 91 {
        Some(Delimiter(Direction::Open, Delim::Bracket))
    } else if c == 93 {
        Some(Delimiter(Direction::Close, Delim::Bracket))
    } else if c == 123 {
        Some(Delimiter(Direction::Open, Delim::Brace))
    } else if c == 125 {
        Some(Delimiter(Direction::Close, Delim::Brace))
    } else {
        None
    }
}

impl Delimiter {
    /// The character that writes this delimiter.
    pub open spec fn byte(self) -> u8 {
        match self {
            Delimiter(Direction::Open, Delim::Parenthesis) => 40,
            Delimiter(Direction::Close, Delim::Parenthesis) => 41,
            Delimiter(Direction::Open, Delim::Bracket) => 91,
            Delimiter(Direction::Close, Delim::Bracket) => 93,
            Delimiter(Direction::Open, Delim::Brace) => 123,
            Delimiter(Direction::Close, Delim::Brace) => 125,
        }
    }

    /// The same kind of bracket in the other direction.
    pub open spec fn inverted(self) -> Delimiter {
        Delimiter(self.0.flipped(), self.1)
    }

    /// The character that writes this delimiter.
    pub fn as_u8(self) -> (r: u8)
        ensures
            r == self.byte(),
    {
        match self {
            Delimiter(Direction::Open, Delim::Parenthesis) => 40,
            Delimiter(Direction::Close, Delim::Parenthesis) => 41,
            Delimiter(Direction::Open, Delim::Bracket) => 91,
            Delimiter(Direction::Close, Delim::Bracket) => 93,
            Delimiter(Direction::Open, Delim::Brace) => 123,
            Delimiter(Direction::Close, Delim::Brace) => 125,
        }
    }

    /// The one-character text of this delimiter.
    pub fn as_bytes(self) -> (r: &'static [u8])
        ensures
            r@ == seq![self.byte()],
    {
        let text: &'static str = match self {
            Delimiter(Direction::Open, Delim::Parenthesis) => "(",
            Delimiter(Direction::Close, Delim::Parenthesis) => ")",
            Delimiter(Direction::Open, Delim::Bracket) => "[",
            Delimiter(Direction::Close, Delim::Bracket) => "]",
            Delimiter(Direction::Open, Delim::Brace) => "{",
            Delimiter(Direction::Close, Delim::Brace) => "}",
        };
        proof {
            reveal_strlit("(");
            reveal_strlit(")");
            reveal_strlit("[");
            reveal_strlit("]");
            reveal_strlit("{");
            reveal_strlit("}");
            lemma_ascii_encodes(text@);
        }
        text.as_bytes()
    }

    /// Whether the character `c` writes a delimiter.
    pub fn is_delimiter(c: u8) -> (r: bool)
        ensures
            r == is_delimiter_byte(c),
    {
        c == 40 || c == 41 || c == 91 || c == 93 || c == 123 || c == 125
    }
}

impl TryFrom<u8> for Delimiter {
    type Error = ();

    fn try_from(d: u8) -> (r: Result<Delimiter, ()>) {
        if d == 40 {
            Ok(Delimiter(Direction::Open, Delim::Parenthesis))
        } else if d == 41 {
            Ok(Delimiter(Direction::Close, Delim::Parenthesis))
        } else if d == 91 {
            Ok(Delimiter(Direction::Open, Delim::Bracket))
        } else if d == 93 {
            Ok(Delimiter(Direction::Close, Delim::Bracket))
        } else if d == 123 {
            Ok(Delimiter(Direction::Open, Delim::Brace))
        } else if d == 125 {
            Ok(Delimiter(Direction::Close, Delim::Brace))
        } else {
            Err(())
        }
    }
}

impl vstd::std_specs::convert::TryFromSpecImpl<u8> for Delimiter {
    open spec fn obeys_try_from_spec() -> bool {
        true
    }

    open spec fn try_from_spec(d: u8) -> Result<Delimiter, ()> {
        match delimiter_of_byte(d) {
            Some(delimiter) => Ok(delimiter),
            None => Err(()),
        }
    }
}

/// A text of one ASCII character is encoded as one byte.
proof fn lemma_ascii_encodes(text: Seq<char>)
    requires
        text.len() == 1,
        '\0' <= text[0] <= '\u{7f}',
    ensures
        encode_utf8(text) == seq![text[0] as u8],
{
    assert(is_ascii_chars(text));
    is_ascii_chars_encode_utf8(text);
    assert(encode_utf8(text) =~= seq![text[0] as u8]);
}

/// Only the six bracket characters write a delimiter, and each delimiter is
/// read back from the character that writes it.
pub proof fn lemma_delimiter_bytes(d: Delimiter, c: u8)
    ensures
        delimiter_of_byte(d.byte()) == Some(d),
        is_delimiter_byte(d.byte()),
        delimiter_of_byte(c) is Some <==> is_delimiter_byte(c),
        delimiter_of_byte(c) == Some(d) ==> d.byte() == c,
{
}

/// Inverting a delimiter changes its direction and keeps its kind; inverting
/// twice gives the delimiter back.
pub proof fn lemma_inverted(d: Delimiter)
    ensures
        d.inverted().1 == d.1,
        d.inverted().0 != d.0,
        d.inverted().inverted() == d,
{
}

} // verus!
