//! The small inline byte buffer that index keys are built in.
use smallvec::SmallVec;
use vstd::prelude::*;

verus! {

/// A key under construction, held in a `smallvec::SmallVec<[u8; 256]>` so that
/// typical keys never touch the heap.
#[verifier::external_body]
pub struct KeyBuf {
    inner: SmallVec<[u8; 256]>,
}

/// The bytes held by a key buffer, in order.
pub uninterp spec fn key_bytes(b: KeyBuf) -> Seq<u8>;

impl KeyBuf {
    /// `SmallVec::new`: an empty buffer.
    #[verifier::external_body]
    fn fresh() -> (r: KeyBuf)
        ensures
            key_bytes(r) == Seq::<u8>::empty(),
    {
        KeyBuf { inner: SmallVec::new() }
    }

    /// An empty key.
    pub fn new() -> (r: KeyBuf)
        ensures
            key_bytes(r) == Seq::<u8>::empty(),
    {
        KeyBuf::fresh()
    }

    /// `SmallVec::push`: appends one byte.
    #[verifier::external_body]
    pub(crate) fn push(&mut self, x: u8)
        requires
            key_bytes(*old(self)).len() < usize::MAX,
        ensures
            key_bytes(*final(self)) == key_bytes(*old(self)).push(x),
    {
        self.inner.push(x);
    }

    /// `SmallVec::extend_from_slice`: appends a run of bytes.
    #[verifier::external_body]
    pub(crate) fn extend_from_slice(&mut self, s: &[u8])
        requires
            key_bytes(*old(self)).len() + s@.len() <= usize::MAX,
        ensures
            key_bytes(*final(self)) == key_bytes(*old(self)) + s@,
    {
        self.inner.extend_from_slice(s);
    }

    /// `SmallVec::to_vec`: a copy of the bytes.
    #[verifier::external_body]
    fn copy_out(&self) -> (r: Vec<u8>)
        ensures
            r@ == key_bytes(*self),
    {
        self.inner.to_vec()
    }

    /// The bytes of the key, copied out.
    pub fn to_vec(&self) -> (r: Vec<u8>)
        ensures
            r@ == key_bytes(*self),
    {
        self.copy_out()
    }

    /// `SmallVec::as_slice`: the bytes as a slice.
    #[verifier::external_body]
    fn view_slice(&self) -> (r: &[u8])
        ensures
            r@ == key_bytes(*self),
    {
        self.inner.as_slice()
    }

    /// The bytes of the key.
    pub fn as_slice(&self) -> (r: &[u8])
        ensures
            r@ == key_bytes(*self),
    {
        self.view_slice()
    }
}

} // verus!
