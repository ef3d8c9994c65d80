//! Shows bytes that may or may not be text.

use vstd::prelude::*;
use vstd::utf8::{decode_utf8, valid_utf8};
use crate::text::{ascii_chars, lemma_ascii_decodes, lossy_string};

verus! {

/// Bytes, told apart by whether they are well-formed UTF-8.
#[derive(Clone, Copy, Debug)]
pub enum DebugUtf8<'a> {
    ValidUtf8(&'a str),
    InvalidUtf8(&'a [u8]),
}

/// Tells whether `s` is well-formed UTF-8, and hands it back as text if it
/// is, as bytes if it is not.
pub fn debug_utf8<'a>(s: &'a [u8]) -> (r: DebugUtf8<'a>)
    ensures
        match r {
            DebugUtf8::ValidUtf8(text) => valid_utf8(s@) && text@ == decode_utf8(s@),
            DebugUtf8::InvalidUtf8(bytes) => !valid_utf8(s@) && bytes@ == s@,
        },
{
    match core::str::from_utf8(s) {
        Ok(text) => DebugUtf8::ValidUtf8(text),
        Err(_) => DebugUtf8::InvalidUtf8(s),
    }
}

/// The digit of `n`, which is below sixteen, in base sixteen, in lower case.
pub open spec fn hex_digit(n: u8) -> u8 {
    if n < 10 {
        (48 + n) as u8
    } else {
        (87 + n) as u8
    }
}

/// Two digits in base sixteen for each byte of `bytes`.
pub open spec fn hex_text(bytes: Seq<u8>) -> Seq<u8>
    decreases bytes.len(),
{
    if bytes.len() == 0 {
        Seq::empty()
    } else {
        hex_text(bytes.drop_last()).push(hex_digit(bytes.last() / 16)).push(
            hex_digit(bytes.last() % 16),
        )
    }
}

/// The digits of `hex_text` are ASCII characters.
pub proof fn lemma_hex_text_is_ascii(bytes: Seq<u8>)
    ensures
        hex_text(bytes).len() == 2 * bytes.len(),
        forall|i: int| 0 <= i < hex_text(bytes).len() ==> hex_text(bytes)[i] < 128,
    decreases bytes.len(),
{
    if bytes.len() > 0 {
        lemma_hex_text_is_ascii(bytes.drop_last());
    }
}

/// The digit of `n` in base sixteen.
fn hex_digit_of(n: u8) -> (r: u8)
    requires
        n < 16,
    ensures
        r == hex_digit(n),
{
    if n < 10 {
        48 + n
    } else {
        87 + n
    }
}

impl<'a> DebugUtf8<'a> {
    /// How the bytes are shown: text as it stands, other bytes as two
    /// digits each in base sixteen.
    pub open spec fn shown(self) -> Seq<char> {
        match self {
            DebugUtf8::ValidUtf8(text) => text@,
            DebugUtf8::InvalidUtf8(bytes) => ascii_chars(hex_text(bytes@)),
        }
    }

    /// The bytes as they are shown.
    pub fn to_string(&self) -> (r: String)
        ensures
            r@ == self.shown(),
    {
        match self {
            DebugUtf8::ValidUtf8(text) => (*text).to_owned(),
            DebugUtf8::InvalidUtf8(bytes) => {
                let mut out: Vec<u8> = Vec::new();
                let mut i: usize = 0;
                proof {
                    assert(bytes@.subrange(0, 0) =~= Seq::<u8>::empty());
                }
                while i < bytes.len()
                    invariant
                        i <= bytes@.len(),
                        out@ == hex_text(bytes@.subrange(0, i as int)),
                    decreases bytes@.len() - i,
                {
                    let b = bytes[i];
                    proof {
                        assert(bytes@.subrange(0, i + 1).drop_last() =~= bytes@.subrange(
                            0,
                            i as int,
                        ));
                    }
                    out.push(hex_digit_of(b / 16));
                    out.push(hex_digit_of(b % 16));
                    i = i + 1;
                }
                proof {
                    assert(bytes@.subrange(0, bytes@.len() as int) =~= bytes@);
                    lemma_hex_text_is_ascii(bytes@);
                    lemma_ascii_decodes(out@);
                }
                lossy_string(out.as_slice())
            },
        }
    }
}

} // verus!
