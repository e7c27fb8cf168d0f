use vstd::prelude::*;

verus! {

/// `bytes::BytesMut` is the growable accumulation buffer that a connection
/// reads transport chunks into and consumes decoded frames from.
#[verifier::external_type_specification]
#[verifier::external_body]
pub struct ExBytesMut(bytes::BytesMut);

/// The bytes a `bytes::BytesMut` currently holds, front to back.
pub uninterp spec fn bytes_view(b: bytes::BytesMut) -> Seq<u8>;

/// Relies on `bytes::BytesMut::with_capacity`: the new buffer is empty
/// (capacity is allocation, not contents).
#[verifier::external_body]
pub(crate) fn buf_new() -> (r: bytes::BytesMut)
    ensures
        bytes_view(r) == Seq::<u8>::empty(),
{
    bytes::BytesMut::with_capacity(4096)
}

/// Relies on `bytes::BytesMut::len`: the number of bytes held.
#[verifier::external_body]
pub(crate) fn buf_len(b: &bytes::BytesMut) -> (r: usize)
    ensures
        r == bytes_view(*b).len(),
{
    b.len()
}

/// Relies on the `Deref<Target = [u8]>` impl of `bytes::BytesMut`: a view of
/// all held bytes, in order.
#[verifier::external_body]
pub(crate) fn buf_bytes<'a>(b: &'a bytes::BytesMut) -> (r: &'a [u8])
    ensures
        r@ == bytes_view(*b),
{
    &b[..]
}

/// Relies on `bytes::BytesMut::extend_from_slice`: appends the given bytes
/// at the back, leaving the front untouched.
#[verifier::external_body]
pub(crate) fn buf_extend(b: &mut bytes::BytesMut, chunk: &[u8])
    ensures
        bytes_view(*final(b)) == bytes_view(*old(b)) + chunk@,
{
    b.extend_from_slice(chunk);
}

/// Relies on `bytes::Buf::advance` for `BytesMut`: discards exactly the first
/// `n` held bytes.  `advance` panics when `n` exceeds the remaining length,
/// so that case is excluded here.
#[verifier::external_body]
pub(crate) fn buf_advance(b: &mut bytes::BytesMut, n: usize)
    requires
        n <= bytes_view(*old(b)).len(),
    ensures
        bytes_view(*final(b)) == bytes_view(*old(b)).skip(n as int),
{
    bytes::Buf::advance(b, n);
}

} // verus!
