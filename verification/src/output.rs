//! The byte sink that the encoder and the decoder fill, and its conversion
//! to text.

use vstd::prelude::*;
use vstd::utf8::decode_utf8;
use vstd::utf8::valid_utf8;

verus! {

/// Collected output bytes of one encode or decode call.
pub struct Output {
    data: Vec<u8>,
}

impl View for Output {
    type V = Seq<u8>;

    closed spec fn view(&self) -> Seq<u8> {
        self.data@
    }
}

impl Output {
    /// An empty sink.
    pub fn new() -> (r: Output)
        ensures
            r@ == Seq::<u8>::empty(),
    {
        Output { data: Vec::new() }
    }

    /// Wrap already-produced bytes.
    pub fn from_bytes(data: Vec<u8>) -> (r: Output)
        ensures
            r@ == data@,
    {
        Output { data }
    }

    /// The collected bytes.
    pub fn as_bytes(&self) -> (r: &[u8])
        ensures
            r@ == self@,
    {
        self.data.as_slice()
    }

    /// The collected bytes as text. Relies on String::from_utf8, which
    /// returns the string over exactly the given bytes when they are valid
    /// UTF-8; on invalid UTF-8 this yields the empty string.
    #[verifier::external_body]
    pub fn get(self) -> (r: String)
        ensures
            valid_utf8(self@) ==> r@ == decode_utf8(self@),
    {
        match String::from_utf8(self.data) {
            Ok(s) => s,
            Err(_) => String::new(),
        }
    }
}

} // verus!
