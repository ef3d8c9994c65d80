//! What the parser reports when it has to repair a text.

use vstd::prelude::*;
use vstd::utf8::{
    decode_utf8, decode_utf8_encode_utf8, encode_utf8, encode_utf8_decode_utf8,
    encode_utf8_valid_utf8, valid_utf8,
};
use crate::delimiter::{Delim, Delimiter, Direction};
use crate::loc::{lemma_text_encodes_shown, Loc, LocView};
use crate::text::{ascii_chars, lemma_ascii_decodes, lemma_encode_concat, lossy_string, lossy_text};

verus! {

/// One repair, with the places and names that its message shows.
pub enum Diagnostic {
    /// A closer of another kind than the element that is open. It is found
    /// at `at`; the element is called `name` and was opened at `opened_at`.
    Mismatch { at: LocView, closer: Delim, name: Seq<u8>, opener: Delim, opened_at: LocView },
    /// A closer of the right kind, at `at`, while no element is open.
    Unmatched { at: LocView, closer: Delim },
    /// An element called `name`, opened at `at`, that is still open where
    /// the text ends.
    Unclosed { at: LocView, name: Seq<u8>, opener: Delim },
}

impl Diagnostic {
    /// The message as bytes: the place, a colon and a space, then what went
    /// wrong, with the names as they stand in the text.
    pub open spec fn message(self) -> Seq<u8> {
        match self {
            Diagnostic::Mismatch { at, closer, name, opener, opened_at } => at.text()
                + encode_utf8(": '"@) + seq![Delimiter(Direction::Close, closer).byte()]
                + encode_utf8("' doesn't close '"@) + name + seq![
                Delimiter(Direction::Open, opener).byte(),
            ] + encode_utf8("' at "@) + opened_at.text(),
            Diagnostic::Unmatched { at, closer } => at.text() + encode_utf8(": '"@) + seq![
                Delimiter(Direction::Close, closer).byte(),
            ] + encode_utf8("' doesn't close anything"@),
            Diagnostic::Unclosed { at, name, opener } => at.text() + encode_utf8(": '"@) + name
                + seq![Delimiter(Direction::Open, opener).byte()] + encode_utf8(
                "' was never closed"@,
            ),
        }
    }

    /// The name that the message shows, if it shows one.
    pub open spec fn name(self) -> Seq<u8> {
        match self {
            Diagnostic::Mismatch { name, .. } => name,
            Diagnostic::Unmatched { .. } => Seq::empty(),
            Diagnostic::Unclosed { name, .. } => name,
        }
    }

    /// The message as text, where the name that it shows is well-formed
    /// UTF-8.
    pub open spec fn shown(self) -> Seq<char> {
        match self {
            Diagnostic::Mismatch { at, closer, name, opener, opened_at } => at.shown() + ": '"@
                + seq![Delimiter(Direction::Close, closer).byte() as char]
                + "' doesn't close '"@ + decode_utf8(name) + seq![
                Delimiter(Direction::Open, opener).byte() as char,
            ] + "' at "@ + opened_at.shown(),
            Diagnostic::Unmatched { at, closer } => at.shown() + ": '"@ + seq![
                Delimiter(Direction::Close, closer).byte() as char,
            ] + "' doesn't close anything"@,
            Diagnostic::Unclosed { at, name, opener } => at.shown() + ": '"@ + decode_utf8(name)
                + seq![Delimiter(Direction::Open, opener).byte() as char] + "' was never closed"@,
        }
    }

    /// Whether `string` is the message as it is handed out: the bytes of the
    /// message as a string, in which what is not well-formed UTF-8 is
    /// replaced. Where all of it is well formed, that is the text that the
    /// bytes encode.
    pub open spec fn is_shown_as(self, string: Seq<char>) -> bool {
        &&& string == lossy_text(self.message())
        &&& valid_utf8(self.message()) ==> string == decode_utf8(self.message())
    }
}

/// Where the name that a message shows is well-formed UTF-8, the message is
/// handed out as the text that `shown` gives.
pub proof fn lemma_message_encodes_shown(diagnostic: Diagnostic, string: Seq<char>)
    requires
        valid_utf8(diagnostic.name()),
        diagnostic.is_shown_as(string),
    ensures
        diagnostic.message() == encode_utf8(diagnostic.shown()),
        string == diagnostic.shown(),
{
    let name = decode_utf8(diagnostic.name());
    decode_utf8_encode_utf8(diagnostic.name());
    match diagnostic {
        Diagnostic::Mismatch { at, closer, name: _, opener, opened_at } => {
            let c = seq![Delimiter(Direction::Close, closer).byte()];
            let o = seq![Delimiter(Direction::Open, opener).byte()];
            lemma_text_encodes_shown(at);
            lemma_text_encodes_shown(opened_at);
            lemma_ascii_decodes(c);
            lemma_ascii_decodes(o);
            assert(ascii_chars(c) =~= seq![Delimiter(Direction::Close, closer).byte() as char]);
            assert(ascii_chars(o) =~= seq![Delimiter(Direction::Open, opener).byte() as char]);
            let t1 = at.shown();
            let t2 = t1 + ": '"@;
            let t3 = t2 + ascii_chars(c);
            let t4 = t3 + "' doesn't close '"@;
            let t5 = t4 + name;
            let t6 = t5 + ascii_chars(o);
            let t7 = t6 + "' at "@;
            lemma_encode_concat(t1, ": '"@);
            lemma_encode_concat(t2, ascii_chars(c));
            lemma_encode_concat(t3, "' doesn't close '"@);
            lemma_encode_concat(t4, name);
            lemma_encode_concat(t5, ascii_chars(o));
            lemma_encode_concat(t6, "' at "@);
            lemma_encode_concat(t7, opened_at.shown());
        },
        Diagnostic::Unmatched { at, closer } => {
            let c = seq![Delimiter(Direction::Close, closer).byte()];
            lemma_text_encodes_shown(at);
            lemma_ascii_decodes(c);
            assert(ascii_chars(c) =~= seq![Delimiter(Direction::Close, closer).byte() as char]);
            let t1 = at.shown();
            let t2 = t1 + ": '"@;
            let t3 = t2 + ascii_chars(c);
            lemma_encode_concat(t1, ": '"@);
            lemma_encode_concat(t2, ascii_chars(c));
            lemma_encode_concat(t3, "' doesn't close anything"@);
        },
        Diagnostic::Unclosed { at, name: _, opener } => {
            let o = seq![Delimiter(Direction::Open, opener).byte()];
            lemma_text_encodes_shown(at);
            lemma_ascii_decodes(o);
            assert(ascii_chars(o) =~= seq![Delimiter(Direction::Open, opener).byte() as char]);
            let t1 = at.shown();
            let t2 = t1 + ": '"@;
            let t3 = t2 + name;
            let t4 = t3 + ascii_chars(o);
            lemma_encode_concat(t1, ": '"@);
            lemma_encode_concat(t2, name);
            lemma_encode_concat(t3, ascii_chars(o));
            lemma_encode_concat(t4, "' was never closed"@);
        },
    }
    encode_utf8_valid_utf8(diagnostic.shown());
    encode_utf8_decode_utf8(diagnostic.shown());
}

/// Whether `strings` are the messages of `diagnostics`, in order.
pub open spec fn are_shown_as(diagnostics: Seq<Diagnostic>, strings: Seq<String>) -> bool {
    &&& strings.len() == diagnostics.len()
    &&& forall|i: int| 0 <= i < diagnostics.len() ==> (#[trigger] diagnostics[i]).is_shown_as(
        strings[i]@,
    )
}

/// The messages of a list that grew by one are the messages of the list,
/// and one more.
pub proof fn lemma_shown_push(
    diagnostics: Seq<Diagnostic>,
    strings: Seq<String>,
    diagnostic: Diagnostic,
    string: String,
)
    requires
        are_shown_as(diagnostics, strings),
        diagnostic.is_shown_as(string@),
    ensures
        are_shown_as(diagnostics.push(diagnostic), strings.push(string)),
{
    let more = diagnostics.push(diagnostic);
    assert forall|i: int| 0 <= i < more.len() implies (#[trigger] more[i]).is_shown_as(
        strings.push(string)[i]@,
    ) by {
        if i < diagnostics.len() {
            assert(diagnostics[i].is_shown_as(strings[i]@));
        }
    }
}

/// The message for a closer that does not match the open element.
pub fn mismatch_message(
    at: &Loc,
    closer: Delim,
    name: &[u8],
    opener: Delim,
    opened_at: &Loc,
) -> (r: String)
    ensures
        (Diagnostic::Mismatch {
            at: at@,
            closer,
            name: name@,
            opener,
            opened_at: opened_at@,
        }).is_shown_as(r@),
{
    let mut out: Vec<u8> = Vec::new();
    at.write_text(&mut out);
    out.extend_from_slice(": '".as_bytes());
    out.push(closer.close().as_u8());
    out.extend_from_slice("' doesn't close '".as_bytes());
    out.extend_from_slice(name);
    out.push(opener.open().as_u8());
    out.extend_from_slice("' at ".as_bytes());
    opened_at.write_text(&mut out);
    proof {
        assert(out@ =~= (Diagnostic::Mismatch {
            at: at@,
            closer,
            name: name@,
            opener,
            opened_at: opened_at@,
        }).message());
    }
    lossy_string(out.as_slice())
}

/// The message for a closer that finds no element open.
pub fn unmatched_message(at: &Loc, closer: Delim) -> (r: String)
    ensures
        (Diagnostic::Unmatched { at: at@, closer }).is_shown_as(r@),
{
    let mut out: Vec<u8> = Vec::new();
    at.write_text(&mut out);
    out.extend_from_slice(": '".as_bytes());
    out.push(closer.close().as_u8());
    out.extend_from_slice("' doesn't close anything".as_bytes());
    proof {
        assert(out@ =~= (Diagnostic::Unmatched { at: at@, closer }).message());
    }
    lossy_string(out.as_slice())
}

/// The message for an element that is still open where the text ends.
pub fn unclosed_message(at: &Loc, name: &[u8], opener: Delim) -> (r: String)
    ensures
        (Diagnostic::Unclosed { at: at@, name: name@, opener }).is_shown_as(r@),
{
    let mut out: Vec<u8> = Vec::new();
    at.write_text(&mut out);
    out.extend_from_slice(": '".as_bytes());
    out.extend_from_slice(name);
    out.push(opener.open().as_u8());
    out.extend_from_slice("' was never closed".as_bytes());
    proof {
        assert(out@ =~= (Diagnostic::Unclosed { at: at@, name: name@, opener }).message());
    }
    lossy_string(out.as_slice())
}

} // verus!
