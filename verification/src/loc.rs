//! A place in a named text: a file name, a row and a column.

use vstd::prelude::*;
use vstd::utf8::{
    decode_utf8, encode_utf8, encode_utf8_decode_utf8, encode_utf8_valid_utf8, valid_utf8,
};
use std::sync::Arc;
use crate::text::{
    ascii_chars, decimal, lemma_ascii_decodes, lemma_decimal_is_ascii, lemma_encode_concat,
    lossy_string, share, write_decimal,
};

verus! {

/// A place in a text. Rows and columns count from zero. An empty file name
/// means that the place is unknown.
#[derive(Debug)]
pub struct Loc {
    /// Name of the file.
    pub name: Arc<String>,
    /// Zero-based line number.
    pub row: usize,
    /// Zero-based column number.
    pub col: usize,
}

/// The mathematical value of a [`Loc`].
pub struct LocView {
    pub name: Seq<char>,
    pub row: nat,
    pub col: nat,
}

impl View for Loc {
    type V = LocView;

    open spec fn view(&self) -> LocView {
        LocView { name: self.name@, row: self.row as nat, col: self.col as nat }
    }
}

/// The number of line feeds in `bytes`.
pub open spec fn line_feeds(bytes: Seq<u8>) -> nat
    decreases bytes.len(),
{
    if bytes.len() == 0 {
        0
    } else {
        line_feeds(bytes.drop_last()) + if bytes.last() == 10 { 1nat } else { 0nat }
    }
}

/// The number of characters of `bytes` that stand after its last line feed;
/// all of them, if it has none.
pub open spec fn tail_width(bytes: Seq<u8>) -> nat
    decreases bytes.len(),
{
    if bytes.len() == 0 || bytes.last() == 10 {
        0
    } else {
        tail_width(bytes.drop_last()) + 1
    }
}

impl LocView {
    /// The start of the text called `name`.
    pub open spec fn start(name: Seq<char>) -> LocView {
        LocView { name, row: 0, col: 0 }
    }

    /// The place reached from `self` by reading `bytes`: each line feed
    /// begins a new row at column zero, each other character is one column.
    pub open spec fn advance(self, bytes: Seq<u8>) -> LocView {
        LocView {
            name: self.name,
            row: self.row + line_feeds(bytes),
            col: if line_feeds(bytes) == 0 {
                self.col + bytes.len()
            } else {
                tail_width(bytes)
            },
        }
    }

    /// How a place is shown: `<unknown>` without a file name, else the name,
    /// the row and the column, the last two counted from one, with colons
    /// between them.
    pub open spec fn shown(self) -> Seq<char> {
        if self.name.len() == 0 {
            "<unknown>"@
        } else {
            self.name + seq![':'] + ascii_chars(decimal(self.row + 1)) + seq![':'] + ascii_chars(
                decimal(self.col + 1),
            )
        }
    }

    /// The bytes of a place as it is shown.
    pub open spec fn text(self) -> Seq<u8> {
        if self.name.len() == 0 {
            encode_utf8("<unknown>"@)
        } else {
            encode_utf8(self.name) + seq![58u8] + decimal(self.row + 1) + seq![58u8] + decimal(
                self.col + 1,
            )
        }
    }
}

/// The bytes of a place are the UTF-8 encoding of how it is shown.
pub proof fn lemma_text_encodes_shown(at: LocView)
    ensures
        at.text() == encode_utf8(at.shown()),
        valid_utf8(at.text()),
        decode_utf8(at.text()) == at.shown(),
{
    if at.name.len() > 0 {
        let colon = seq![':'];
        let row = decimal(at.row + 1);
        let col = decimal(at.col + 1);
        lemma_decimal_is_ascii(at.row + 1);
        lemma_decimal_is_ascii(at.col + 1);
        lemma_ascii_decodes(row);
        lemma_ascii_decodes(col);
        lemma_ascii_decodes(seq![58u8]);
        assert(ascii_chars(seq![58u8]) =~= colon);
        lemma_encode_concat(at.name, colon);
        lemma_encode_concat(at.name + colon, ascii_chars(row));
        lemma_encode_concat(at.name + colon + ascii_chars(row), colon);
        lemma_encode_concat(at.name + colon + ascii_chars(row) + colon, ascii_chars(col));
    }
    encode_utf8_valid_utf8(at.shown());
    encode_utf8_decode_utf8(at.shown());
}

/// Reading nothing leaves a place where it is, and reading two texts one
/// after the other is reading them joined.
pub proof fn lemma_advance_concat(at: LocView, a: Seq<u8>, b: Seq<u8>)
    ensures
        at.advance(Seq::empty()) == at,
        at.advance(a).advance(b) == at.advance(a + b),
        at.advance(a).row <= at.row + a.len(),
        at.advance(a).col <= at.col + a.len(),
    decreases b.len(),
{
    lemma_counts(a);
    if b.len() == 0 {
        assert(a + b =~= a);
    } else {
        lemma_advance_concat(at, a, b.drop_last());
        lemma_counts(b.drop_last());
        assert((a + b).drop_last() =~= a + b.drop_last());
        assert((a + b).last() == b.last());
    }
}

/// A text has no more line feeds than characters, and no more characters
/// after the last line feed than it has in all.
pub proof fn lemma_counts(bytes: Seq<u8>)
    ensures
        line_feeds(bytes) <= bytes.len(),
        tail_width(bytes) <= bytes.len(),
        line_feeds(bytes) == 0 ==> tail_width(bytes) == bytes.len(),
    decreases bytes.len(),
{
    if bytes.len() > 0 {
        lemma_counts(bytes.drop_last());
    }
}

impl Loc {
    /// Moves this place over `bytes`: each line feed begins a new row at
    /// column zero, each other character is one column.
    pub fn update(&mut self, bytes: &[u8])
        requires
            old(self).row + bytes@.len() <= usize::MAX,
            old(self).col + bytes@.len() <= usize::MAX,
        ensures
            final(self)@ == old(self)@.advance(bytes@),
            final(self).name == old(self).name,
    {
        let mut i: usize = 0;
        proof {
            assert(bytes@.subrange(0, 0) =~= Seq::<u8>::empty());
        }
        while i < bytes.len()
            invariant
                i <= bytes@.len(),
                old(self).row + bytes@.len() <= usize::MAX,
                old(self).col + bytes@.len() <= usize::MAX,
                self@ == old(self)@.advance(bytes@.subrange(0, i as int)),
                self.name == old(self).name,
            decreases bytes@.len() - i,
        {
            proof {
                let head = bytes@.subrange(0, i as int);
                let next = bytes@.subrange(0, i + 1);
                lemma_advance_concat(old(self)@, head, seq![bytes@[i as int]]);
                lemma_advance_concat(old(self)@, next, Seq::empty());
                assert(head + seq![bytes@[i as int]] =~= next);
                assert(next.drop_last() =~= head);
                lemma_counts(head);
            }
            if bytes[i] == 10 {
                self.col = 0;
                self.row = self.row + 1;
            } else {
                self.col = self.col + 1;
            }
            i = i + 1;
        }
        proof {
            assert(bytes@.subrange(0, bytes@.len() as int) =~= bytes@);
        }
    }

    /// A copy of this place that shares the file name.
    pub fn duplicate(&self) -> (r: Loc)
        ensures
            r == *self,
    {
        Loc { name: share(&self.name), row: self.row, col: self.col }
    }

    /// Appends this place to `out` as it is written in a message.
    pub fn write_text(&self, out: &mut Vec<u8>)
        ensures
            final(out)@ == old(out)@ + self@.text(),
    {
        let ghost start = out@;
        if self.name.as_str().is_empty() {
            out.extend_from_slice("<unknown>".as_bytes());
        } else {
            out.extend_from_slice(self.name.as_str().as_bytes());
            out.push(58);
            write_decimal(out, self.row as u128 + 1);
            out.push(58);
            write_decimal(out, self.col as u128 + 1);
            proof {
                assert(out@ =~= start + self@.text());
            }
        }
    }

    /// This place as it is shown.
    pub fn to_string(&self) -> (r: String)
        ensures
            r@ == self@.shown(),
    {
        let mut out: Vec<u8> = Vec::new();
        self.write_text(&mut out);
        proof {
            assert(out@ =~= self@.text());
            lemma_text_encodes_shown(self@);
        }
        lossy_string(out.as_slice())
    }
}

impl Clone for Loc {
    fn clone(&self) -> (r: Loc)
        ensures
            r == *self,
    {
        self.duplicate()
    }
}

impl<'a> From<&'a str> for Loc {
    /// The start of the text called `name`.
    fn from(name: &'a str) -> (r: Loc)
        ensures
            r@ == LocView::start(name@),
    {
        Loc { name: Arc::new(name.to_owned()), row: 0, col: 0 }
    }
}

impl<'a> vstd::std_specs::convert::FromSpecImpl<&'a str> for Loc {
    open spec fn obeys_from_spec() -> bool {
        false
    }

    open spec fn from_spec(name: &'a str) -> Loc {
        arbitrary()
    }
}

impl Default for Loc {
    /// The start of a text without a name.
    fn default() -> (r: Loc)
        ensures
            r@ == LocView::start(Seq::empty()),
    {
        Loc { name: Arc::new(String::new()), row: 0, col: 0 }
    }
}

} // verus!
