//! Content identifiers: the SHA-1 of a block, with the `h:` prefix.
use vstd::prelude::*;

use crate::hashing::{sha1_hex, sha1_text};
use crate::text::joined;

verus! {

/// A content identifier: SHA-1 over the data.
#[derive(Debug)]
pub struct Cid {
    hex: String,
}

impl View for Cid {
    type V = Seq<char>;

    /// The digest in hexadecimal.
    closed spec fn view(&self) -> Seq<char> {
        self.hex@
    }
}

impl Cid {
    /// The identifier of a block of bytes.
    pub fn compute(data: &[u8]) -> (r: Self)
        ensures
            r@ == sha1_text(data@),
    {
        Cid { hex: sha1_hex(data) }
    }

    /// The bare digest.
    pub fn as_str(&self) -> (r: &str)
        ensures
            r@ == self@,
    {
        self.hex.as_str()
    }

    /// The content key form: `h:<sha1>`.
    pub fn prefixed(&self) -> (r: String)
        ensures
            r@ == "h:"@ + self@,
    {
        joined("h:", self.hex.as_str())
    }

    /// The displayed form, the same as the content key form.
    pub fn to_string(&self) -> (r: String)
        ensures
            r@ == "h:"@ + self@,
    {
        self.prefixed()
    }

    /// Whether two identifiers are the same.
    pub fn same(&self, other: &Cid) -> (r: bool)
        ensures
            r == (self@ == other@),
    {
        self.hex == other.hex
    }
}

} // verus!
