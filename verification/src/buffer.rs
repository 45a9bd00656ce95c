//! The 64-byte-aligned byte buffer that frozen bitmaps and working arenas live in.
use vstd::prelude::*;

use aligned_vec::{AVec, ConstAlign};

verus! {

/// 64-byte-aligned owned byte buffer: an `AVec<u8>`.
#[verifier::external_body]
pub struct AlignedBuf {
    inner: AVec<u8, ConstAlign<64>>,
}

/// The bytes a buffer holds.
pub uninterp spec fn buf_bytes(buf: AlignedBuf) -> Seq<u8>;

/// The length a buffer was allocated for: it grows this far without allocating.
pub uninterp spec fn buf_room(buf: AlignedBuf) -> nat;

/// `AVec::with_capacity`: an empty buffer with `cap` bytes reserved. It panics on a
/// capacity over `isize::MAX`.
#[verifier::external_body]
pub(crate) fn aligned_buf(cap: usize) -> (r: AlignedBuf)
    requires
        cap <= isize::MAX,
    ensures
        buf_bytes(r) == Seq::<u8>::empty(),
        buf_room(r) == cap,
{
    AlignedBuf { inner: AVec::with_capacity(64, cap) }
}

/// `AVec::resize`: the length becomes `len`, new bytes being `value`. Within the
/// reserved capacity it does not allocate, so it does not panic.
#[verifier::external_body]
pub(crate) fn buf_resize(buf: &mut AlignedBuf, len: usize, value: u8)
    requires
        len <= buf_room(*old(buf)),
    ensures
        buf_bytes(*final(buf)).len() == len,
        forall|k: int|
            0 <= k < len && k < buf_bytes(*old(buf)).len() ==> #[trigger] buf_bytes(*final(buf))[k]
                == buf_bytes(*old(buf))[k],
        forall|k: int|
            buf_bytes(*old(buf)).len() <= k < len ==> #[trigger] buf_bytes(*final(buf))[k] == value,
        buf_room(*final(buf)) == buf_room(*old(buf)),
{
    buf.inner.resize(len, value)
}

/// `AVec::extend_from_slice`: `bytes` are appended. Within the reserved capacity it
/// does not allocate, so it does not panic.
#[verifier::external_body]
pub(crate) fn buf_extend(buf: &mut AlignedBuf, bytes: &[u8])
    requires
        buf_bytes(*old(buf)).len() + bytes.len() <= buf_room(*old(buf)),
    ensures
        buf_bytes(*final(buf)) == buf_bytes(*old(buf)) + bytes@,
        buf_room(*final(buf)) == buf_room(*old(buf)),
{
    buf.inner.extend_from_slice(bytes)
}

/// `AVec::reserve_exact`: the buffer can grow by `additional` bytes without allocating
/// again. It panics on a capacity over `isize::MAX`.
#[verifier::external_body]
pub(crate) fn buf_reserve(buf: &mut AlignedBuf, additional: usize)
    requires
        buf_bytes(*old(buf)).len() + additional <= isize::MAX,
    ensures
        buf_bytes(*final(buf)) == buf_bytes(*old(buf)),
        buf_room(*final(buf)) >= buf_room(*old(buf)),
        buf_room(*final(buf)) >= buf_bytes(*old(buf)).len() + additional,
{
    buf.inner.reserve_exact(additional)
}

/// `AVec::capacity`: the length the buffer was allocated for. An `AVec` keeps the capacity it
/// was asked for, which `with_capacity` and `reserve_exact` take exactly, whatever the
/// allocator hands out.
#[verifier::external_body]
pub(crate) fn buf_capacity(buf: &AlignedBuf) -> (r: usize)
    ensures
        r == buf_room(*buf),
{
    buf.inner.capacity()
}

/// `AVec::truncate`: only the first `len` bytes stay.
#[verifier::external_body]
pub(crate) fn buf_truncate(buf: &mut AlignedBuf, len: usize)
    requires
        len <= buf_bytes(*old(buf)).len(),
    ensures
        buf_bytes(*final(buf)) == buf_bytes(*old(buf)).take(len as int),
        buf_room(*final(buf)) == buf_room(*old(buf)),
{
    buf.inner.truncate(len)
}

/// `AVec::as_slice`: the bytes held.
#[verifier::external_body]
pub(crate) fn buf_slice(buf: &AlignedBuf) -> (r: &[u8])
    ensures
        r@ == buf_bytes(*buf),
{
    buf.inner.as_slice()
}

/// `AVec::as_mut_slice`: the bytes held, to be changed in place.
#[verifier::external_body]
pub(crate) fn buf_slice_mut(buf: &mut AlignedBuf) -> (r: &mut [u8])
    ensures
        r@ == buf_bytes(*old(buf)),
        buf_bytes(*final(buf)) == final(r)@,
        buf_room(*final(buf)) == buf_room(*old(buf)),
{
    buf.inner.as_mut_slice()
}

/// `AVec::as_ptr`: the address of the first byte, which the type keeps a multiple
/// of 64. Nothing else is promised of it.
#[verifier::external_body]
pub(crate) fn buf_address(buf: &AlignedBuf) -> (r: usize)
    ensures
        r % 64 == 0,
{
    buf.inner.as_ptr() as usize
}

} // verus!
