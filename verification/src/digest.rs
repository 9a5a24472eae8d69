//! The digests by which contents are named.
use vstd::prelude::*;

verus! {

/// The digest of a byte string, in its notation of hexadecimal digits. Which digest a byte string has
/// is decided where the bytes come in; here digests are carried and compared.
#[derive(PartialEq, Eq, Hash, PartialOrd, Ord, Debug)]
pub struct Digest {
    pub hex: String,
}

impl View for Digest {
    type V = Seq<char>;

    open spec fn view(&self) -> Seq<char> {
        self.hex@
    }
}

impl Clone for Digest {
    fn clone(&self) -> (r: Digest)
        ensures
            r@ == self@,
    {
        Digest { hex: self.hex.clone() }
    }
}

impl Digest {
    /// The notation of hexadecimal digits.
    pub fn to_hex(&self) -> (r: String)
        ensures
            r@ == self@,
    {
        self.hex.clone()
    }
}

/// A digest is its notation.
pub proof fn law_digest_is_its_notation(d: Digest)
    ensures
        d@ == d.hex@,
{
}

} // verus!
