//! What it is for a text to be well formed, for its dividers to stand where
//! the writer puts them, and what the text is with its dividers set right.

use vstd::prelude::*;
use crate::delimiter::{Delim, Delimiter, Direction};
use crate::lexer::{
    chunk_at, delimiter_at, divided_at, lemma_next_delimiter, next_delimiter, word_at,
};
use crate::text::{spec_is_literal, DIVIDER};
use crate::writer::{state_after_text, NodeWriteState};

verus! {

/// An element that is open at some point of a text: its name and the kind of
/// bracket that opened it.
pub struct Opening {
    pub name: Seq<u8>,
    pub delim: Delim,
}

/// Whether a tag with the word `word` is plain text where the elements
/// `open` are open, outermost first: the innermost is literal and `word` is
/// not its name.
pub open spec fn swallowed(open: Seq<Opening>, word: Seq<u8>) -> bool {
    open.len() > 0 && spec_is_literal(open.last().name) && word != open.last().name
}

/// Whether a tag fits where the elements `open` are open: it is plain text,
/// or it opens an element, or it closes the innermost open element with
/// that element's kind of bracket.
pub open spec fn fits(open: Seq<Opening>, word: Seq<u8>, delimiter: Delimiter) -> bool {
    swallowed(open, word) || delimiter.0 == Direction::Open || (open.len() > 0
        && open.last().delim == delimiter.1)
}

/// Whether a tag is a stray closing parenthesis: it closes, and no element
/// is open. The parser keeps it as text.
pub open spec fn is_stray(open: Seq<Opening>, delimiter: Delimiter) -> bool {
    open.len() == 0 && delimiter == Delimiter(Direction::Close, Delim::Parenthesis)
}

/// The elements that are open after a tag that fits or is stray.
pub open spec fn open_after(open: Seq<Opening>, word: Seq<u8>, delimiter: Delimiter) -> Seq<
    Opening,
> {
    if swallowed(open, word) {
        open
    } else if delimiter.0 == Direction::Open {
        open.push(Opening { name: word, delim: delimiter.1 })
    } else if open.len() > 0 {
        open.drop_last()
    } else {
        open
    }
}

/// Whether the text `s` is well formed from `pos` on, where the elements
/// `open` are open at `pos`: every tag fits, and no element is open at the
/// end.
pub open spec fn well_formed_from(s: Seq<u8>, pos: int, open: Seq<Opening>) -> bool
    decreases s.len() - pos,
{
    let d = next_delimiter(s, pos);
    if pos < 0 || d >= s.len() {
        open.len() == 0
    } else {
        proof {
            lemma_next_delimiter(s, pos);
        }
        fits(open, word_at(s, pos), delimiter_at(s, pos)) && well_formed_from(
            s,
            d + 1,
            open_after(open, word_at(s, pos), delimiter_at(s, pos)),
        )
    }
}

/// Whether the text `s` is well formed: every opener has its one closer of
/// the same kind, no closer stands alone, and every literal element is
/// closed after its own name.
pub open spec fn well_formed(s: Seq<u8>) -> bool {
    well_formed_from(s, 0, Seq::empty())
}

/// Whether the text `s` is steady from `pos` on, where the elements `open`
/// are open at `pos`: every tag fits or is a stray closing parenthesis, and
/// no element is open at the end.
pub open spec fn steady_from(s: Seq<u8>, pos: int, open: Seq<Opening>) -> bool
    decreases s.len() - pos,
{
    let d = next_delimiter(s, pos);
    if pos < 0 || d >= s.len() {
        open.len() == 0
    } else {
        proof {
            lemma_next_delimiter(s, pos);
        }
        (fits(open, word_at(s, pos), delimiter_at(s, pos)) || is_stray(
            open,
            delimiter_at(s, pos),
        )) && steady_from(s, d + 1, open_after(open, word_at(s, pos), delimiter_at(s, pos)))
    }
}

/// Whether the text `s` is steady: what the parser repairs in it, if
/// anything, are closing parentheses that close nothing, which it keeps as
/// they stand. Every well-formed text is steady.
pub open spec fn steady(s: Seq<u8>) -> bool {
    steady_from(s, 0, Seq::empty())
}

/// Whether the writer puts a divider before a tag with the word `word` and
/// the delimiter `delimiter`, where the elements `open` are open and the
/// text before the tag left the state `state`: the tag opens an element, and
/// the state is sticky.
pub open spec fn divider_wanted(
    open: Seq<Opening>,
    state: NodeWriteState,
    word: Seq<u8>,
    delimiter: Delimiter,
) -> bool {
    !swallowed(open, word) && delimiter.0 == Direction::Open && state == NodeWriteState::Sticky
}

/// Whether the dividers of `s` from `pos` on stand where the writer puts
/// them, where the elements `open` are open at `pos`: a divider stands
/// directly before the word of a tag if and only if the tag opens an
/// element and the text before the divider ends in a word character.
pub open spec fn dividers_exact_from(s: Seq<u8>, pos: int, open: Seq<Opening>) -> bool
    decreases s.len() - pos,
{
    let d = next_delimiter(s, pos);
    if pos < 0 || d >= s.len() {
        true
    } else {
        proof {
            lemma_next_delimiter(s, pos);
        }
        divided_at(s, pos) == divider_wanted(
            open,
            state_after_text(chunk_at(s, pos)),
            word_at(s, pos),
            delimiter_at(s, pos),
        ) && dividers_exact_from(
            s,
            d + 1,
            open_after(open, word_at(s, pos), delimiter_at(s, pos)),
        )
    }
}

/// Whether the dividers of `s` stand where the writer puts them: none is
/// redundant, and none is missing before a literal name that follows a
/// word.
pub open spec fn dividers_exact(s: Seq<u8>) -> bool {
    dividers_exact_from(s, 0, Seq::empty())
}

/// Whether no divider of `s` from `pos` on is redundant, where the elements
/// `open` are open at `pos`: where a divider stands directly before the
/// word of a tag, the writer wants one there.
pub open spec fn dividers_needed_from(s: Seq<u8>, pos: int, open: Seq<Opening>) -> bool
    decreases s.len() - pos,
{
    let d = next_delimiter(s, pos);
    if pos < 0 || d >= s.len() {
        true
    } else {
        proof {
            lemma_next_delimiter(s, pos);
        }
        (divided_at(s, pos) ==> divider_wanted(
            open,
            state_after_text(chunk_at(s, pos)),
            word_at(s, pos),
            delimiter_at(s, pos),
        )) && dividers_needed_from(
            s,
            d + 1,
            open_after(open, word_at(s, pos), delimiter_at(s, pos)),
        )
    }
}

/// Whether no divider of `s` is redundant.
pub open spec fn dividers_needed(s: Seq<u8>) -> bool {
    dividers_needed_from(s, 0, Seq::empty())
}

/// What a tag adds to the open text: a divider where the writer wants one,
/// the word, and the delimiter.
pub open spec fn tag_text(
    open: Seq<Opening>,
    state: NodeWriteState,
    word: Seq<u8>,
    delimiter: Delimiter,
) -> Seq<u8> {
    (if divider_wanted(open, state, word, delimiter) {
        seq![DIVIDER]
    } else {
        Seq::empty()
    }) + word + seq![delimiter.byte()]
}

/// A chunk and its tag with the divider set right.
pub open spec fn segment(s: Seq<u8>, pos: int, open: Seq<Opening>) -> Seq<u8> {
    chunk_at(s, pos) + tag_text(
        open,
        state_after_text(chunk_at(s, pos)),
        word_at(s, pos),
        delimiter_at(s, pos),
    )
}

/// The text of `s` from `pos` on with its dividers set right, where the
/// elements `open` are open at `pos`: each chunk, a divider where the writer
/// wants one, the word and the delimiter; at the end what follows the last
/// delimiter.
pub open spec fn normal_from(s: Seq<u8>, pos: int, open: Seq<Opening>) -> Seq<u8>
    decreases s.len() - pos,
{
    let d = next_delimiter(s, pos);
    if pos < 0 || pos > s.len() {
        Seq::empty()
    } else if d >= s.len() {
        s.subrange(pos, s.len() as int)
    } else {
        proof {
            lemma_next_delimiter(s, pos);
        }
        chunk_at(s, pos) + tag_text(
            open,
            state_after_text(chunk_at(s, pos)),
            word_at(s, pos),
            delimiter_at(s, pos),
        ) + normal_from(s, d + 1, open_after(open, word_at(s, pos), delimiter_at(s, pos)))
    }
}

/// The text `s` with its dividers set right: without those that the lexer
/// leaves out and the writer does not put back, and with one before each
/// literal name that follows a word directly.
pub open spec fn normal_form(s: Seq<u8>) -> Seq<u8> {
    normal_from(s, 0, Seq::empty())
}

} // verus!
