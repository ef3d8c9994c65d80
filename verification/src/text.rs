//! The classes of characters that the notation tells apart, and the
//! conversions between bytes and strings that the library needs.

use vstd::prelude::*;
use std::sync::Arc;
use vstd::utf8::{
    decode_utf8, encode_utf8, encode_utf8_decode_utf8, encode_utf8_valid_utf8, is_ascii_chars,
    is_ascii_chars_encode_utf8, valid_utf8,
};
use crate::delimiter::{is_delimiter_byte, Delimiter};

verus! {

/// The character that marks a literal element's name: a backslash.
pub const ESCAPER: u8 = 92;

/// The character that keeps a word apart from the tag after it: a vertical bar.
pub const DIVIDER: u8 = 124;

/// A space, or one of the five control characters from tab to carriage return.
pub open spec fn spec_is_ascii_space(c: u8) -> bool {
    c == 32 || (9 <= c && c < 14)
}

/// Whether `c` is a space, or one of the five control characters from tab to
/// carriage return.
#[verifier::when_used_as_spec(spec_is_ascii_space)]
pub fn is_ascii_space(c: u8) -> (r: bool)
    ensures
        r == spec_is_ascii_space(c),
{
    c == 32 || (c >= 9 && c < 14)
}

/// A character that can stand in a word: neither white space, nor the
/// divider, nor the escape marker, nor a delimiter.
pub open spec fn spec_is_word_char(c: u8) -> bool {
    !(spec_is_ascii_space(c) || c == DIVIDER || c == ESCAPER || is_delimiter_byte(c))
}

/// Whether `c` can stand in a word.
#[verifier::when_used_as_spec(spec_is_word_char)]
pub fn is_word_char(c: u8) -> (r: bool)
    ensures
        r == spec_is_word_char(c),
{
    !(is_ascii_space(c) || c == DIVIDER || c == ESCAPER || Delimiter::is_delimiter(c))
}

/// A name is literal if it begins with the escape marker.
pub open spec fn spec_is_literal(name: Seq<u8>) -> bool {
    name.len() > 0 && name[0] == ESCAPER
}

/// Whether `name` begins with the escape marker.
pub fn is_literal(name: &[u8]) -> (r: bool)
    ensures
        r == spec_is_literal(name@),
{
    name.len() > 0 && name[0] == ESCAPER
}

/// The digits of `n` in base ten, without leading zeros.
pub open spec fn decimal(n: nat) -> Seq<u8>
    decreases n,
{
    if n < 10 {
        seq![(48 + n) as u8]
    } else {
        decimal(n / 10).push((48 + n % 10) as u8)
    }
}

/// The digits of a number are ASCII characters.
pub proof fn lemma_decimal_is_ascii(n: nat)
    ensures
        forall|i: int| 0 <= i < decimal(n).len() ==> 48 <= #[trigger] decimal(n)[i] <= 57,
    decreases n,
{
    if n >= 10 {
        lemma_decimal_is_ascii(n / 10);
        let head = decimal(n / 10);
        let last = (48 + n % 10) as u8;
        assert forall|i: int| 0 <= i < decimal(n).len() implies 48 <= #[trigger] decimal(n)[i]
            <= 57 by {
            if i < head.len() {
                assert(head.push(last)[i] == head[i]);
            }
        }
    }
}

/// Two texts joined are encoded as their encodings joined.
pub proof fn lemma_encode_concat(a: Seq<char>, b: Seq<char>)
    ensures
        encode_utf8(a + b) == encode_utf8(a) + encode_utf8(b),
    decreases a.len(),
{
    if a.len() == 0 {
        assert(a + b =~= b);
        assert(encode_utf8(a) + encode_utf8(b) =~= encode_utf8(b));
    } else {
        lemma_encode_concat(a.drop_first(), b);
        assert((a + b).drop_first() =~= a.drop_first() + b);
        assert((a + b)[0] == a[0]);
        let first = vstd::utf8::encode_scalar(a[0] as u32);
        assert(first + (encode_utf8(a.drop_first()) + encode_utf8(b)) =~= (first + encode_utf8(
            a.drop_first(),
        )) + encode_utf8(b));
    }
}

/// Appends the digits of `n` in base ten to `out`.
pub fn write_decimal(out: &mut Vec<u8>, n: u128)
    ensures
        final(out)@ == old(out)@ + decimal(n as nat),
{
    let mut digits: Vec<u8> = Vec::new();
    let mut rest: u128 = n / 10;
    digits.push((48 + n % 10) as u8);
    while rest > 0
        invariant
            rest > 0 ==> decimal(n as nat) == decimal(rest as nat) + digits@.reverse(),
            rest == 0 ==> decimal(n as nat) == digits@.reverse(),
        decreases rest,
    {
        let ghost before = digits@;
        let ghost prev = rest;
        digits.push((48 + rest % 10) as u8);
        rest = rest / 10;
        proof {
            let d = (48 + prev % 10) as u8;
            assert(digits@.reverse() =~= seq![d] + before.reverse());
            if rest > 0 {
                assert(decimal(prev as nat) == decimal(rest as nat).push(d));
                assert(decimal(rest as nat).push(d) + before.reverse() =~= decimal(rest as nat)
                    + (seq![d] + before.reverse()));
            } else {
                assert(decimal(prev as nat) =~= seq![d]);
            }
        }
    }
    let ghost start = out@;
    let mut i: usize = digits.len();
    while i > 0
        invariant
            i <= digits.len(),
            out@ == start + digits@.reverse().subrange(0, digits.len() - i),
        decreases i,
    {
        i = i - 1;
        out.push(digits[i]);
        proof {
            let r = digits@.reverse();
            let k = digits.len() - i;
            assert(r.subrange(0, k) =~= r.subrange(0, k - 1).push(r[k - 1]));
            assert(r[k - 1] == digits@[i as int]);
        }
    }
    proof {
        assert(digits@.reverse().subrange(0, digits.len() as int) =~= digits@.reverse());
    }
}

/// Compares two texts character by character.
pub fn bytes_eq(a: &[u8], b: &[u8]) -> (r: bool)
    ensures
        r == (a@ == b@),
{
    if a.len() != b.len() {
        return false;
    }
    let mut i: usize = 0;
    while i < a.len()
        invariant
            i <= a@.len(),
            a@.len() == b@.len(),
            a@.subrange(0, i as int) == b@.subrange(0, i as int),
        decreases a@.len() - i,
    {
        if a[i] != b[i] {
            proof {
                assert(a@[i as int] != b@[i as int]);
            }
            return false;
        }
        proof {
            assert(a@.subrange(0, i + 1) =~= a@.subrange(0, i as int).push(a@[i as int]));
            assert(b@.subrange(0, i + 1) =~= b@.subrange(0, i as int).push(b@[i as int]));
        }
        i = i + 1;
    }
    proof {
        assert(a@.subrange(0, a@.len() as int) =~= a@);
        assert(b@.subrange(0, b@.len() as int) =~= b@);
    }
    true
}

/// Hands out another pointer to a shared value, by `Arc::clone`, which leaves
/// the value as it is.
#[verifier::external_body]
pub(crate) fn share<T>(value: &Arc<T>) -> (r: Arc<T>)
    ensures
        r == *value,
{
    Arc::clone(value)
}

/// The error of `core::str::from_utf8`, carried through unread.
#[verifier::external_type_specification]
#[verifier::external_body]
pub struct ExUtf8Error(core::str::Utf8Error);

/// `core::str::from_utf8` accepts exactly the well-formed UTF-8 texts, and
/// hands back the text that the bytes encode.
pub assume_specification[ core::str::from_utf8 ](v: &[u8]) -> (r: Result<
    &str,
    core::str::Utf8Error,
>)
    ensures
        r is Ok <==> valid_utf8(v@),
        r matches Ok(s) ==> s@ == decode_utf8(v@),
;

/// The characters that ASCII bytes stand for.
pub open spec fn ascii_chars(bytes: Seq<u8>) -> Seq<char> {
    Seq::new(bytes.len(), |i: int| bytes[i] as char)
}

/// Bytes below 128 are well-formed UTF-8: each encodes one character, and
/// they decode to these characters.
pub proof fn lemma_ascii_decodes(bytes: Seq<u8>)
    requires
        forall|i: int| 0 <= i < bytes.len() ==> bytes[i] < 128,
    ensures
        valid_utf8(bytes),
        decode_utf8(bytes) == ascii_chars(bytes),
        encode_utf8(ascii_chars(bytes)) == bytes,
{
    let chars = ascii_chars(bytes);
    assert(is_ascii_chars(chars)) by {
        assert forall|i: int| 0 <= i < chars.len() implies '\0' <= #[trigger] chars[i]
            <= '\u{7f}' by {
            assert(bytes[i] < 128);
        }
    }
    is_ascii_chars_encode_utf8(chars);
    assert(encode_utf8(chars) =~= bytes) by {
        assert forall|i: int| 0 <= i < bytes.len() implies encode_utf8(chars)[i] == bytes[i] by {
            assert(chars[i] as u8 == encode_utf8(chars)[i]);
        }
    }
    encode_utf8_valid_utf8(chars);
    encode_utf8_decode_utf8(chars);
}

/// What `String::from_utf8_lossy` makes of `bytes`: their text, with the
/// replacement character in place of each ill-formed sequence.
pub uninterp spec fn lossy_text(bytes: Seq<u8>) -> Seq<char>;

/// Calls `String::from_utf8_lossy` and takes the result as an owned string.
/// The contract names the result, and says what the documentation says of
/// well-formed input: the bytes are decoded as they stand.
#[verifier::external_body]
pub(crate) fn lossy_string(bytes: &[u8]) -> (r: String)
    ensures
        r@ == lossy_text(bytes@),
        valid_utf8(bytes@) ==> r@ == decode_utf8(bytes@),
{
    String::from_utf8_lossy(bytes).into_owned()
}

} // verus!
