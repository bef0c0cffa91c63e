//! Buffers that are wiped when they are dropped.

use vstd::prelude::*;

verus! {

/// A byte buffer that is overwritten with zeros when it is dropped. It is opaque as a
/// whole, since `zeroize::Zeroizing` has a trait as its bound that Verus does not
/// know, and cannot be declared by itself.
#[verifier::external_body]
pub struct Guarded {
    bytes: zeroize::Zeroizing<Vec<u8>>,
}

/// What a guarded buffer holds.
pub uninterp spec fn guarded(buffer: Guarded) -> Seq<u8>;

impl View for Guarded {
    type V = Seq<u8>;

    open spec fn view(&self) -> Seq<u8> {
        guarded(*self)
    }
}

/// Calls `zeroize::Zeroizing::new`: the buffer holds the bytes that it was given.
#[verifier::external_body]
pub(crate) fn guard(bytes: Vec<u8>) -> (r: Guarded)
    ensures
        guarded(r) == bytes@,
{
    Guarded { bytes: zeroize::Zeroizing::new(bytes) }
}

/// Calls the `Deref` impl of `zeroize::Zeroizing`: the bytes inside, as they are.
#[verifier::external_body]
pub(crate) fn peek(buffer: &Guarded) -> (r: &[u8])
    ensures
        r@ == guarded(*buffer),
{
    buffer.bytes.as_slice()
}

impl Guarded {
    /// A guarded buffer with the given bytes.
    pub fn new(bytes: Vec<u8>) -> (r: Self)
        ensures
            r@ == bytes@,
    {
        guard(bytes)
    }

    /// The bytes inside.
    pub fn as_bytes(&self) -> (r: &[u8])
        ensures
            r@ == self@,
    {
        peek(self)
    }
}

} // verus!
