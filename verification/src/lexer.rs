//! Cuts a text into chunks of plain text and tags: a word followed at once
//! by a delimiter.

use vstd::prelude::*;
use vstd::slice::slice_subrange;
use std::collections::VecDeque;
use crate::delimiter::{delimiter_of_byte, is_delimiter_byte, Delimiter};
use crate::loc::{lemma_advance_concat, Loc, LocView};
use crate::text::{is_word_char, spec_is_word_char, DIVIDER, ESCAPER};

verus! {

/// A piece of the text: a literal run, or a word with the delimiter that
/// follows it.
#[derive(Clone, Copy, Debug)]
pub enum Token<'a> {
    Chunk(&'a [u8]),
    Tag(&'a [u8], Delimiter),
}

/// The mathematical value of a [`Token`].
pub enum TokenView {
    Chunk(Seq<u8>),
    Tag(Seq<u8>, Delimiter),
}

impl<'a> View for Token<'a> {
    type V = TokenView;

    open spec fn view(&self) -> TokenView {
        match self {
            Token::Chunk(text) => TokenView::Chunk(text@),
            Token::Tag(word, delimiter) => TokenView::Tag(word@, *delimiter),
        }
    }
}

/// The place of the first delimiter of `s` at or after `from`; the length of
/// `s` if there is none.
pub open spec fn next_delimiter(s: Seq<u8>, from: int) -> int
    decreases s.len() - from,
{
    if from < 0 || from >= s.len() {
        s.len() as int
    } else if is_delimiter_byte(s[from]) {
        from
    } else {
        next_delimiter(s, from + 1)
    }
}

/// Where the word begins that ends just before `hi` and does not reach back
/// beyond `lo`: the longest run of word characters there, together with an
/// escape marker that stands directly before it.
pub open spec fn word_start(s: Seq<u8>, lo: int, hi: int) -> int
    decreases hi - lo,
{
    if hi <= lo {
        hi
    } else if s[hi - 1] == ESCAPER {
        hi - 1
    } else if spec_is_word_char(s[hi - 1]) {
        word_start(s, lo, hi - 1)
    } else {
        hi
    }
}

/// Where the chunk ends that begins at `lo` and is followed by a word that
/// begins at `word`: a divider directly before the word is left out.
pub open spec fn chunk_end(s: Seq<u8>, lo: int, word: int) -> int {
    if word > lo && s[word - 1] == DIVIDER {
        word - 1
    } else {
        word
    }
}

/// The chunk that is cut off `s` at `pos`, where a delimiter follows: the
/// text from `pos` up to the word before the delimiter, without a divider
/// directly before that word.
pub open spec fn chunk_at(s: Seq<u8>, pos: int) -> Seq<u8> {
    s.subrange(pos, chunk_end(s, pos, word_start(s, pos, next_delimiter(s, pos))))
}

/// Whether a divider stands between the chunk that is cut off `s` at `pos`
/// and the word after it.
pub open spec fn divided_at(s: Seq<u8>, pos: int) -> bool {
    chunk_end(s, pos, word_start(s, pos, next_delimiter(s, pos))) < word_start(
        s,
        pos,
        next_delimiter(s, pos),
    )
}

/// The word of the tag that is cut off `s` at `pos`, where a delimiter
/// follows.
pub open spec fn word_at(s: Seq<u8>, pos: int) -> Seq<u8> {
    s.subrange(word_start(s, pos, next_delimiter(s, pos)), next_delimiter(s, pos))
}

/// The delimiter of the tag that is cut off `s` at `pos`, where a delimiter
/// follows.
pub open spec fn delimiter_at(s: Seq<u8>, pos: int) -> Delimiter {
    delimiter_of_byte(s[next_delimiter(s, pos)]).unwrap()
}

/// The tokens of `s` from `pos` on, each with its place, where `at` is the
/// place of `pos`. Up to each delimiter the text is cut into a chunk and a
/// tag; a chunk's place is where it begins, a tag's place is where its chunk
/// ends. What follows the last delimiter is one more chunk, unless it is
/// empty.
pub open spec fn tokens_from(s: Seq<u8>, pos: int, at: LocView) -> Seq<(LocView, TokenView)>
    decreases s.len() - pos,
{
    if pos < 0 || pos >= s.len() {
        Seq::empty()
    } else {
        let d = next_delimiter(s, pos);
        if d >= s.len() {
            seq![(at, TokenView::Chunk(s.subrange(pos, s.len() as int)))]
        } else {
            proof {
                lemma_next_delimiter(s, pos);
            }
            seq![
                (at, TokenView::Chunk(chunk_at(s, pos))),
                (
                    at.advance(chunk_at(s, pos)),
                    TokenView::Tag(word_at(s, pos), delimiter_at(s, pos)),
                ),
            ] + tokens_from(s, d + 1, at.advance(s.subrange(pos, d + 1)))
        }
    }
}

/// All tokens of the text `s`, which begins at the place `at`.
pub open spec fn tokens(s: Seq<u8>, at: LocView) -> Seq<(LocView, TokenView)> {
    tokens_from(s, 0, at)
}

/// The first delimiter at or after `from` lies between `from` and the end,
/// and no delimiter stands before it.
pub proof fn lemma_next_delimiter(s: Seq<u8>, from: int)
    requires
        0 <= from <= s.len(),
    ensures
        from <= next_delimiter(s, from) <= s.len(),
        next_delimiter(s, from) < s.len() ==> is_delimiter_byte(s[next_delimiter(s, from)]),
        forall|i: int| from <= i < next_delimiter(s, from) ==> !is_delimiter_byte(#[trigger] s[i]),
    decreases s.len() - from,
{
    if from < s.len() && !is_delimiter_byte(s[from]) {
        lemma_next_delimiter(s, from + 1);
    }
}

/// A word begins within the text it was looked for in, and a chunk ends
/// within it too.
pub proof fn lemma_word_start(s: Seq<u8>, lo: int, hi: int)
    requires
        0 <= lo <= hi <= s.len(),
    ensures
        lo <= chunk_end(s, lo, word_start(s, lo, hi)) <= word_start(s, lo, hi) <= hi,
    decreases hi - lo,
{
    if hi > lo && s[hi - 1] != ESCAPER && spec_is_word_char(s[hi - 1]) {
        lemma_word_start(s, lo, hi - 1);
    }
}

/// Where a delimiter stands with none before it from `from` on, the first
/// delimiter at or after `from` is found; where none stands up to the end,
/// none is found.
pub proof fn lemma_first_delimiter(s: Seq<u8>, from: int, d: int)
    requires
        0 <= from <= d <= s.len(),
        forall|i: int| from <= i < d ==> !is_delimiter_byte(#[trigger] s[i]),
        d < s.len() ==> is_delimiter_byte(s[d]),
    ensures
        next_delimiter(s, from) == d,
    decreases d - from,
{
    if from < d {
        assert(!is_delimiter_byte(s[from]));
        lemma_first_delimiter(s, from + 1, d);
    }
}

/// The shape of a word: behind its first character it holds word characters
/// only, its first character is a word character or the escape marker, and
/// unless it begins with the escape marker or where the search began, the
/// character before it is neither a word character nor the escape marker.
pub open spec fn is_word_start(s: Seq<u8>, lo: int, hi: int, w: int) -> bool {
    &&& lo <= w <= hi
    &&& forall|i: int| w < i < hi ==> spec_is_word_char(#[trigger] s[i])
    &&& w < hi ==> s[w] == ESCAPER || spec_is_word_char(s[w])
    &&& w == lo || (w < hi && s[w] == ESCAPER) || (!spec_is_word_char(s[w - 1]) && s[w - 1]
        != ESCAPER)
}

/// The word that the lexer peels off has the shape of a word.
pub proof fn lemma_word_start_shape(s: Seq<u8>, lo: int, hi: int)
    requires
        0 <= lo <= hi <= s.len(),
    ensures
        is_word_start(s, lo, hi, word_start(s, lo, hi)),
    decreases hi - lo,
{
    if hi > lo && s[hi - 1] != ESCAPER && spec_is_word_char(s[hi - 1]) {
        lemma_word_start_shape(s, lo, hi - 1);
        let w = word_start(s, lo, hi - 1);
        assert forall|i: int| w < i < hi implies spec_is_word_char(#[trigger] s[i]) by {
            if i < hi - 1 {
            }
        }
    }
}

/// Only one place has the shape of a word's beginning: the one that the
/// lexer finds.
pub proof fn lemma_word_start_is(s: Seq<u8>, lo: int, hi: int, w: int)
    requires
        0 <= lo <= hi <= s.len(),
        is_word_start(s, lo, hi, w),
    ensures
        word_start(s, lo, hi) == w,
    decreases hi - lo,
{
    if hi <= lo {
    } else if s[hi - 1] == ESCAPER {
        if w < hi - 1 {
            assert(spec_is_word_char(s[hi - 1]));
        }
    } else if spec_is_word_char(s[hi - 1]) {
        assert(w <= hi - 1);
        assert(is_word_start(s, lo, hi - 1, w));
        lemma_word_start_is(s, lo, hi - 1, w);
    } else {
        if w < hi - 1 {
            assert(spec_is_word_char(s[hi - 1]));
        }
    }
}

/// The text up to a delimiter is the text up to where the lexer stood, the
/// chunk, the divider if one was left out, the word and the delimiter.
pub proof fn lemma_segment_text(s: Seq<u8>, pos: int)
    requires
        0 <= pos <= s.len(),
        next_delimiter(s, pos) < s.len(),
    ensures
        s.subrange(pos, next_delimiter(s, pos) + 1) == chunk_at(s, pos) + (if divided_at(s, pos) {
            seq![DIVIDER]
        } else {
            Seq::empty()
        }) + word_at(s, pos) + seq![delimiter_at(s, pos).byte()],
{
    let d = next_delimiter(s, pos);
    lemma_next_delimiter(s, pos);
    lemma_word_start(s, pos, d);
    crate::delimiter::lemma_delimiter_bytes(delimiter_at(s, pos), s[d]);
    assert(s.subrange(pos, d + 1) =~= chunk_at(s, pos) + (if divided_at(s, pos) {
        seq![DIVIDER]
    } else {
        Seq::empty()
    }) + word_at(s, pos) + seq![delimiter_at(s, pos).byte()]);
}

/// Whether `y` holds at `ypos` the chunk and the tag that are cut off `s` at
/// `pos`, with a divider between the chunk and the word if `divider` says
/// so.
pub open spec fn holds_segment(s: Seq<u8>, pos: int, y: Seq<u8>, ypos: int, divider: bool) -> bool {
    let word = ypos + chunk_at(s, pos).len() + if divider {
        1int
    } else {
        0int
    };
    let end = word + word_at(s, pos).len();
    &&& 0 <= ypos
    &&& end < y.len()
    &&& y.subrange(ypos, ypos + chunk_at(s, pos).len()) == chunk_at(s, pos)
    &&& divider ==> y[word - 1] == DIVIDER
    &&& y.subrange(word, end) == word_at(s, pos)
    &&& y[end] == s[next_delimiter(s, pos)]
}

/// How long the chunk and the tag are that are cut off `s` at `pos`, with or
/// without a divider between the chunk and the word.
pub open spec fn segment_len(s: Seq<u8>, pos: int, divider: bool) -> int {
    chunk_at(s, pos).len() + (if divider {
        1int
    } else {
        0int
    }) + word_at(s, pos).len() + 1
}

/// A chunk and its tag are cut the same wherever they stand, and a divider
/// may be put between the chunk and the word; one that was there may not be
/// taken away.
pub proof fn lemma_same_cut(s: Seq<u8>, pos: int, y: Seq<u8>, ypos: int, divider: bool)
    requires
        0 <= pos <= s.len(),
        next_delimiter(s, pos) < s.len(),
        holds_segment(s, pos, y, ypos, divider),
        divided_at(s, pos) ==> divider,
    ensures
        next_delimiter(y, ypos) == ypos + segment_len(s, pos, divider) - 1,
        chunk_at(y, ypos) == chunk_at(s, pos),
        word_at(y, ypos) == word_at(s, pos),
        delimiter_at(y, ypos) == delimiter_at(s, pos),
        divided_at(y, ypos) == divider,
{
    let d = next_delimiter(s, pos);
    let w = word_start(s, pos, d);
    let c = chunk_end(s, pos, w);
    let chunk = chunk_at(s, pos);
    let word = word_at(s, pos);
    lemma_next_delimiter(s, pos);
    lemma_word_start(s, pos, d);
    lemma_word_start_shape(s, pos, d);
    let cy = ypos + chunk.len();
    let wy = cy + if divider {
        1int
    } else {
        0int
    };
    let dy = wy + word.len();
    assert forall|j: int| ypos <= j < cy implies y[j] == s[pos + (j - ypos)] by {
        assert(y.subrange(ypos, cy)[j - ypos] == y[j]);
        assert(chunk[j - ypos] == s[pos + (j - ypos)]);
    }
    assert forall|j: int| wy <= j < dy implies y[j] == s[w + (j - wy)] by {
        assert(y.subrange(wy, dy)[j - wy] == y[j]);
        assert(word[j - wy] == s[w + (j - wy)]);
    }
    assert forall|j: int| ypos <= j < dy implies !is_delimiter_byte(#[trigger] y[j]) by {
        if j < cy {
            assert(y[j] == s[pos + (j - ypos)]);
        } else if j < wy {
        } else {
            assert(y[j] == s[w + (j - wy)]);
        }
    }
    lemma_first_delimiter(y, ypos, dy);
    if !divider && c > pos {
        assert(y[cy - 1] == s[pos + (cy - 1 - ypos)]);
        assert(y[wy - 1] == s[w - 1]);
    }
    assert(is_word_start(y, ypos, dy, wy)) by {
        assert forall|j: int| wy < j < dy implies spec_is_word_char(#[trigger] y[j]) by {
            assert(y[j] == s[w + (j - wy)]);
        }
        if wy < dy {
            assert(y[wy] == s[w + (wy - wy)]);
        }
    }
    lemma_word_start_is(y, ypos, dy, wy);
    assert(chunk_at(y, ypos) =~= chunk);
    assert(word_at(y, ypos) =~= word);
}

/// Looks for the first delimiter of `input` at or after `from`.
pub fn find_delimiter(input: &[u8], from: usize) -> (r: Option<(usize, Delimiter)>)
    requires
        from <= input@.len(),
    ensures
        match r {
            Some((d, delimiter)) => d == next_delimiter(input@, from as int) && d < input@.len()
                && delimiter_of_byte(input@[d as int]) == Some(delimiter),
            None => next_delimiter(input@, from as int) == input@.len(),
        },
{
    let mut i: usize = from;
    while i < input.len()
        invariant
            from <= i <= input@.len(),
            next_delimiter(input@, from as int) == next_delimiter(input@, i as int),
        decreases input@.len() - i,
    {
        match Delimiter::try_from(input[i]) {
            Ok(delimiter) => {
                return Some((i, delimiter));
            },
            Err(_) => {},
        }
        i = i + 1;
    }
    None
}

/// Looks for the beginning of the word that ends just before `hi`.
pub fn find_word_start(input: &[u8], lo: usize, hi: usize) -> (w: usize)
    requires
        lo <= hi <= input@.len(),
    ensures
        w == word_start(input@, lo as int, hi as int),
        lo <= w <= hi,
{
    let mut w: usize = hi;
    while w > lo
        invariant
            lo <= w <= hi <= input@.len(),
            word_start(input@, lo as int, hi as int) == word_start(input@, lo as int, w as int),
        decreases w,
    {
        let c = input[w - 1];
        if c == ESCAPER {
            return w - 1;
        }
        if !is_word_char(c) {
            return w;
        }
        w = w - 1;
    }
    w
}

/// Reads a text token by token.
#[derive(Debug)]
pub struct Lexer<'a> {
    input: &'a [u8],
    pos: usize,
    loc: Loc,
    queue: VecDeque<(Loc, Token<'a>)>,
}

/// The values of the tokens that wait in a queue.
pub open spec fn queue_view(queue: Seq<(Loc, Token<'_>)>) -> Seq<(LocView, TokenView)> {
    Seq::new(queue.len(), |i: int| (queue[i].0@, queue[i].1@))
}

impl<'a> Lexer<'a> {
    /// The lexer is within its text, and the rest of the text cannot carry
    /// its place beyond the largest row or column.
    pub closed spec fn wf(&self) -> bool {
        &&& self.pos <= self.input@.len()
        &&& self.loc.row + (self.input@.len() - self.pos) <= usize::MAX
        &&& self.loc.col + (self.input@.len() - self.pos) <= usize::MAX
    }

    /// The tokens that the lexer has yet to hand out.
    pub closed spec fn pending(&self) -> Seq<(LocView, TokenView)> {
        queue_view(self.queue@) + tokens_from(self.input@, self.pos as int, self.loc@)
    }

    /// A lexer for the text `input`, which begins at the place `loc`.
    pub fn new(input: &'a [u8], loc: Loc) -> (r: Lexer<'a>)
        requires
            loc.row + input@.len() <= usize::MAX,
            loc.col + input@.len() <= usize::MAX,
        ensures
            r.wf(),
            r.pending() == tokens(input@, loc@),
    {
        let r = Lexer { input: input, pos: 0, loc: loc, queue: VecDeque::new() };
        proof {
            assert(queue_view(r.queue@) =~= Seq::empty());
            assert(r.pending() =~= tokens(input@, loc@));
        }
        r
    }

    /// Queues `token` at the lexer's present place.
    fn push(&mut self, token: Token<'a>)
        ensures
            final(self).queue@ == old(self).queue@.push((final(self).loc, token)),
            final(self).loc == old(self).loc,
            final(self).input == old(self).input,
            final(self).pos == old(self).pos,
    {
        self.queue.push_back((self.loc.clone(), token));
    }

    /// Cuts the next chunk and tag off the text and queues them behind what
    /// is queued: the chunk at the lexer's place, the tag where the chunk
    /// ends. The lexer then stands behind the tag's delimiter, and its place
    /// has moved over all that was cut off. Where no delimiter is left, what
    /// is left of the text is queued as one chunk, and the lexer stands at the
    /// end. Where no text is left, nothing changes.
    fn refill(&mut self)
        requires
            old(self).wf(),
        ensures
            final(self).wf(),
            final(self).pending() == old(self).pending(),
            final(self).input == old(self).input,
            final(self).loc.name == old(self).loc.name,
            old(self).pos >= old(self).input@.len() ==> *final(self) == *old(self),
            old(self).pos < old(self).input@.len() && next_delimiter(
                old(self).input@,
                old(self).pos as int,
            ) < old(self).input@.len() ==> {
                &&& queue_view(final(self).queue@) == queue_view(old(self).queue@) + seq![
                    (old(self).loc@, TokenView::Chunk(chunk_at(old(self).input@, old(self).pos as int))),
                    (
                        old(self).loc@.advance(chunk_at(old(self).input@, old(self).pos as int)),
                        TokenView::Tag(
                            word_at(old(self).input@, old(self).pos as int),
                            delimiter_at(old(self).input@, old(self).pos as int),
                        ),
                    ),
                ]
                &&& final(self).pos == next_delimiter(old(self).input@, old(self).pos as int) + 1
                &&& final(self).loc@ == old(self).loc@.advance(
                    old(self).input@.subrange(
                        old(self).pos as int,
                        next_delimiter(old(self).input@, old(self).pos as int) + 1,
                    ),
                )
            },
            old(self).pos < old(self).input@.len() && next_delimiter(
                old(self).input@,
                old(self).pos as int,
            ) >= old(self).input@.len() ==> {
                &&& queue_view(final(self).queue@) == queue_view(old(self).queue@) + seq![
                    (
                        old(self).loc@,
                        TokenView::Chunk(
                            old(self).input@.subrange(
                                old(self).pos as int,
                                old(self).input@.len() as int,
                            ),
                        ),
                    ),
                ]
                &&& final(self).pos == old(self).input@.len()
                &&& final(self).loc == old(self).loc
            },
    {
        let ghost s = self.input@;
        let ghost at = self.loc@;
        let ghost queued = queue_view(self.queue@);
        let start = self.pos;
        if start >= self.input.len() {
            return ;
        }
        proof {
            lemma_next_delimiter(s, start as int);
            lemma_word_start(s, start as int, next_delimiter(s, start as int));
        }
        match find_delimiter(self.input, start) {
            None => {
                let chunk = slice_subrange(self.input, start, self.input.len());
                self.push(Token::Chunk(chunk));
                self.pos = self.input.len();
                proof {
                    let cut = seq![(at, TokenView::Chunk(chunk@))];
                    assert(queue_view(self.queue@) =~= queued + cut);
                    assert(cut =~= tokens_from(s, start as int, at));
                    assert(tokens_from(s, s.len() as int, at) =~= Seq::empty());
                    assert(queued + cut + Seq::empty() =~= queued + tokens_from(
                        s,
                        start as int,
                        at,
                    ));
                }
            },
            Some((d, delimiter)) => {
                let w = find_word_start(self.input, start, d);
                let c = if w > start && self.input[w - 1] == DIVIDER {
                    w - 1
                } else {
                    w
                };
                let chunk = slice_subrange(self.input, start, c);
                let word = slice_subrange(self.input, w, d);
                let tag = slice_subrange(self.input, c, d + 1);
                proof {
                    lemma_advance_concat(at, chunk@, tag@);
                    lemma_advance_concat(at.advance(chunk@), tag@, Seq::empty());
                    assert(chunk@ + tag@ =~= s.subrange(start as int, d + 1));
                }
                self.push(Token::Chunk(chunk));
                self.loc.update(chunk);
                self.push(Token::Tag(word, delimiter));
                self.loc.update(tag);
                self.pos = d + 1;
                proof {
                    let cut = seq![
                        (at, TokenView::Chunk(chunk@)),
                        (at.advance(chunk@), TokenView::Tag(word@, delimiter)),
                    ];
                    let rest = tokens_from(s, d + 1, self.loc@);
                    assert(queue_view(self.queue@) =~= queued + cut);
                    assert(tokens_from(s, start as int, at) =~= cut + rest);
                    assert((queued + cut) + rest =~= queued + (cut + rest));
                    lemma_advance_concat(self.loc@, Seq::empty(), Seq::empty());
                }
            },
        }
    }

    /// Hands out the next token with its place; `None` once the text is
    /// used up.
    pub fn next(&mut self) -> (r: Option<(Loc, Token<'a>)>)
        requires
            old(self).wf(),
        ensures
            final(self).wf(),
            match r {
                Some((loc, token)) => old(self).pending().len() > 0 && old(self).pending()[0] == (
                    loc@,
                    token@,
                ) && final(self).pending() == old(self).pending().skip(1),
                None => old(self).pending().len() == 0 && final(self).pending().len() == 0,
            },
    {
        if self.queue.len() == 0 {
            self.refill();
        }
        let ghost before = self.queue@;
        let ghost rest = tokens_from(self.input@, self.pos as int, self.loc@);
        let r = self.queue.pop_front();
        proof {
            if before.len() > 0 {
                assert(queue_view(self.queue@) =~= queue_view(before).skip(1));
                assert((queue_view(before) + rest).skip(1) =~= queue_view(before).skip(1) + rest);
            } else {
                assert(queue_view(self.queue@) =~= Seq::empty());
            }
        }
        r
    }
}

} // verus!
