//! Immutable binary text that can be shared without copying.

use vstd::prelude::*;
use vstd::slice::slice_to_vec;
use vstd::utf8::{decode_utf8, encode_utf8, valid_utf8};
use std::sync::Arc;
use crate::text::share;

verus! {

/// Stores binary data. The bytes never change once the blob is made, and a
/// clone shares them.
#[derive(Debug, PartialEq, Eq, PartialOrd, Ord, Hash)]
pub struct Blob(Arc<Vec<u8>>);

impl View for Blob {
    type V = Seq<u8>;

    closed spec fn view(&self) -> Seq<u8> {
        self.0@
    }
}

impl Blob {
    /// The bytes of this blob.
    pub fn as_bytes(&self) -> (r: &[u8])
        ensures
            r@ == self@,
    {
        self.0.as_slice()
    }

    /// The bytes of this blob as a string, if they are well-formed UTF-8.
    pub fn as_utf8(&self) -> (r: Result<&str, core::str::Utf8Error>)
        ensures
            r is Ok <==> valid_utf8(self@),
            r matches Ok(s) ==> s@ == decode_utf8(self@),
    {
        core::str::from_utf8(self.0.as_slice())
    }

    /// The number of bytes.
    pub fn len(&self) -> (r: usize)
        ensures
            r == self@.len(),
    {
        self.0.len()
    }

    /// The bytes of `self` followed by those of `rhs`.
    pub fn concat(&self, rhs: &Blob) -> (r: Blob)
        ensures
            r@ == self@ + rhs@,
    {
        let mut v = slice_to_vec(self.0.as_slice());
        v.extend_from_slice(rhs.0.as_slice());
        Blob(Arc::new(v))
    }
}

impl Clone for Blob {
    /// Another handle on the same bytes.
    fn clone(&self) -> (r: Blob)
        ensures
            r == *self,
    {
        Blob(share(&self.0))
    }
}

impl Default for Blob {
    /// The blob without bytes.
    fn default() -> (r: Blob)
        ensures
            r@ == Seq::<u8>::empty(),
    {
        Blob(Arc::new(Vec::new()))
    }
}

impl From<Vec<u8>> for Blob {
    fn from(s: Vec<u8>) -> (r: Blob)
        ensures
            r@ == s@,
    {
        Blob(Arc::new(s))
    }
}

impl vstd::std_specs::convert::FromSpecImpl<Vec<u8>> for Blob {
    open spec fn obeys_from_spec() -> bool {
        false
    }

    open spec fn from_spec(s: Vec<u8>) -> Blob {
        arbitrary()
    }
}

impl<'a> From<&'a [u8]> for Blob {
    fn from(s: &'a [u8]) -> (r: Blob)
        ensures
            r@ == s@,
    {
        Blob(Arc::new(slice_to_vec(s)))
    }
}

impl<'a> vstd::std_specs::convert::FromSpecImpl<&'a [u8]> for Blob {
    open spec fn obeys_from_spec() -> bool {
        false
    }

    open spec fn from_spec(s: &'a [u8]) -> Blob {
        arbitrary()
    }
}

impl<'a> From<&'a str> for Blob {
    fn from(s: &'a str) -> (r: Blob)
        ensures
            r@ == encode_utf8(s@),
    {
        Blob(Arc::new(slice_to_vec(s.as_bytes())))
    }
}

impl<'a> vstd::std_specs::convert::FromSpecImpl<&'a str> for Blob {
    open spec fn obeys_from_spec() -> bool {
        false
    }

    open spec fn from_spec(s: &'a str) -> Blob {
        arbitrary()
    }
}

impl From<Box<[u8]>> for Blob {
    fn from(s: Box<[u8]>) -> (r: Blob)
        ensures
            r@ == s@,
    {
        Blob(Arc::new(s.into_vec()))
    }
}

impl vstd::std_specs::convert::FromSpecImpl<Box<[u8]>> for Blob {
    open spec fn obeys_from_spec() -> bool {
        false
    }

    open spec fn from_spec(s: Box<[u8]>) -> Blob {
        arbitrary()
    }
}

impl core::ops::Deref for Blob {
    type Target = [u8];

    fn deref(&self) -> (r: &[u8])
        ensures
            r@ == self@,
    {
        self.0.as_slice()
    }
}

impl AsRef<[u8]> for Blob {
    fn as_ref(&self) -> (r: &[u8])
        ensures
            r@ == self@,
    {
        self.0.as_slice()
    }
}

impl core::borrow::Borrow<[u8]> for Blob {
    fn borrow(&self) -> (r: &[u8])
        ensures
            <[u8] as View>::view(r) == self@,
    {
        self.0.as_slice()
    }
}

impl<'a, 'b> core::ops::Add<&'b Blob> for &'a Blob {
    type Output = Blob;

    fn add(self, rhs: &'b Blob) -> (r: Blob)
        ensures
            r@ == self@ + rhs@,
    {
        self.concat(rhs)
    }
}

impl<'a, 'b> vstd::std_specs::ops::AddSpecImpl<&'b Blob> for &'a Blob {
    open spec fn obeys_add_spec() -> bool {
        false
    }

    open spec fn add_req(self, rhs: &'b Blob) -> bool {
        true
    }

    open spec fn add_spec(self, rhs: &'b Blob) -> Blob {
        arbitrary()
    }
}

} // verus!
