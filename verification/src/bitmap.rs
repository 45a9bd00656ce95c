//! Owned frozen bitmap: a 64-byte-aligned byte buffer in frozen wire format.
use vstd::prelude::*;

use crate::buffer::{
    aligned_buf, buf_address, buf_bytes, buf_extend, buf_reserve, buf_room, buf_slice, buf_truncate,
    AlignedBuf,
};
use crate::frozen::{frozen_ok, frozen_set};
use crate::iter::Iter;
use crate::model::{asc32, lemma_set32};
use crate::view::FrozenBitmapView;

verus! {

/// An owned frozen bitmap. The backing allocation is 64-byte aligned, so bitmap
/// payloads sit on cache-line boundaries. Query it directly or take a
/// [`view`](Self::view).
pub struct FrozenBitmap {
    buf: AlignedBuf,
}

impl FrozenBitmap {
    /// The buffer holds a well-formed frozen bitmap.
    #[verifier::type_invariant]
    closed spec fn inv(self) -> bool {
        &&& frozen_ok(buf_bytes(self.buf))
        &&& buf_bytes(self.buf).len() <= isize::MAX
    }

    /// The values.
    pub open spec fn set(self) -> Set<u32> {
        frozen_set(self.src())
    }

    /// The frozen bytes.
    pub closed spec fn src(self) -> Seq<u8> {
        buf_bytes(self.buf)
    }

    /// The length the buffer was allocated for.
    pub closed spec fn room(self) -> nat {
        buf_room(self.buf)
    }

    /// Validate and copy frozen bytes into a 64-byte-aligned buffer; `None` if they are
    /// not a well-formed frozen bitmap. Any source alignment is accepted, because the
    /// copy is what is validated. (A slice is never longer than `isize::MAX`.)
    pub fn from_bytes(bytes: &[u8]) -> (r: Option<Self>)
        ensures
            r is Some <==> frozen_ok(bytes@) && bytes.len() <= isize::MAX,
            r matches Some(b) ==> b.src() == bytes@,
    {
        if bytes.len() > isize::MAX as usize {
            return None;
        }
        let mut buf: AlignedBuf = aligned_buf(bytes.len());
        buf_extend(&mut buf, bytes);
        assert(buf_bytes(buf) =~= bytes@);
        match FrozenBitmapView::from_bytes_at(buf_slice(&buf), buf_address(&buf)) {
            None => {
                return None;
            },
            Some(_) => {},
        }
        Some(FrozenBitmap { buf })
    }

    /// Whether the bytes are a well-formed frozen bitmap, wherever they lie.
    pub(crate) fn is_valid(bytes: &[u8]) -> (r: bool)
        ensures
            r == frozen_ok(bytes@),
    {
        FrozenBitmapView::from_bytes_at(bytes, 0).is_some()
    }

    /// Wrap a buffer that holds a well-formed frozen bitmap.
    pub(crate) fn from_buf(buf: AlignedBuf) -> (r: Self)
        requires
            frozen_ok(buf_bytes(buf)),
            buf_bytes(buf).len() <= isize::MAX,
        ensures
            r.src() == buf_bytes(buf),
            r.room() == buf_room(buf),
    {
        FrozenBitmap { buf }
    }

    /// The buffer, for another use.
    pub(crate) fn into_buf(self) -> (r: AlignedBuf)
        ensures
            buf_bytes(r) == self.src(),
            buf_room(r) == self.room(),
    {
        self.buf
    }

    /// Copy bytes known to be a well-formed frozen bitmap, without validation.
    pub fn from_bytes_trusted(bytes: &[u8]) -> (r: Self)
        requires
            frozen_ok(bytes@),
            bytes.len() <= isize::MAX,
        ensures
            r.src() == bytes@,
    {
        FrozenBitmap::from_bytes_in(bytes, aligned_buf(0))
    }

    /// Copy bytes known to be a well-formed frozen bitmap into `buf`, whatever it held.
    pub(crate) fn from_bytes_in(bytes: &[u8], buf: AlignedBuf) -> (r: Self)
        requires
            frozen_ok(bytes@),
            bytes.len() <= isize::MAX,
        ensures
            r.src() == bytes@,
            r.room() >= buf_room(buf),
    {
        let mut buf: AlignedBuf = buf;
        buf_truncate(&mut buf, 0);
        buf_reserve(&mut buf, bytes.len());
        buf_extend(&mut buf, bytes);
        assert(buf_bytes(buf) =~= bytes@);
        FrozenBitmap { buf }
    }

    /// The frozen bytes.
    pub fn as_bytes(&self) -> (r: &[u8])
        ensures
            r@ == self.src(),
            frozen_ok(r@),
            r.len() <= isize::MAX,
    {
        proof {
            use_type_invariant(self);
        }
        buf_slice(&self.buf)
    }

    /// A view of the same bytes; nothing is validated again.
    pub fn view(&self) -> (r: FrozenBitmapView<'_>)
        ensures
            r.src() == self.src(),
    {
        FrozenBitmapView::from_bytes_trusted(self.as_bytes())
    }

    /// Iterate all values in ascending order.
    pub fn iter(&self) -> (r: Iter<'_>)
        ensures
            r.rest() == self.set(),
    {
        self.view().iter()
    }

    /// Serialized size in bytes (not the number of values, see [`len`](Self::len)).
    pub fn byte_len(&self) -> (r: usize)
        ensures
            r == self.src().len(),
    {
        self.as_bytes().len()
    }

    /// Number of values in the set.
    pub fn len(&self) -> (r: u64)
        ensures
            r == self.set().len(),
    {
        self.view().len()
    }

    /// Whether the set is empty.
    pub fn is_empty(&self) -> (r: bool)
        ensures
            r == (self.set() == Set::<u32>::empty()),
    {
        self.view().is_empty()
    }

    /// Whether `value` is in the set.
    pub fn contains(&self, value: u32) -> (r: bool)
        ensures
            r == self.set().contains(value),
    {
        self.view().contains(value)
    }

    /// Smallest value, or `None` if the set is empty.
    pub fn min(&self) -> (r: Option<u32>)
        ensures
            r is None <==> self.set() == Set::<u32>::empty(),
            r matches Some(v) ==> self.set().contains(v) && forall|x: u32| #[trigger]
                self.set().contains(x) ==> v <= x,
    {
        self.view().min()
    }

    /// Largest value, or `None` if the set is empty.
    pub fn max(&self) -> (r: Option<u32>)
        ensures
            r is None <==> self.set() == Set::<u32>::empty(),
            r matches Some(v) ==> self.set().contains(v) && forall|x: u32| #[trigger]
                self.set().contains(x) ==> x <= v,
    {
        self.view().max()
    }
}

impl<'a> FrozenBitmapView<'a> {
    /// The values, ascending.
    pub fn values(&self) -> (r: Vec<u32>)
        ensures
            asc32(r@),
            r@.to_set() == self@,
    {
        let mut out: Vec<u32> = Vec::new();
        let mut it: Iter<'a> = self.iter();
        proof {
            assert(out@.to_set() =~= Set::<u32>::empty());
            assert(out@.to_set().union(it.rest()) =~= self@);
        }
        loop
            invariant
                asc32(out@),
                out@.to_set().union(it.rest()) == self@,
                forall|i: int, x: u32|
                    0 <= i < out.len() && #[trigger] it.rest().contains(x) ==> #[trigger] out@[i] < x,
            decreases it.rest().len(),
        {
            let ghost (before, rest) = (out@, it.rest());
            match it.next() {
                None => {
                    assert(out@.to_set() =~= self@);
                    return out;
                },
                Some(v) => {
                    out.push(v);
                    proof {
                        lemma_set32(rest);
                        assert(out@ == before.push(v));
                        assert(before.push(v).to_set() =~= before.to_set().insert(v)) by {
                            before.lemma_push_to_set_commute(v);
                        }
                        assert(out@.to_set().union(it.rest()) =~= self@);
                    }
                },
            }
        }
    }
}

impl FrozenBitmap {
    /// The values, ascending.
    pub fn values(&self) -> (r: Vec<u32>)
        ensures
            asc32(r@),
            r@.to_set() == self.set(),
    {
        self.view().values()
    }
}

impl Clone for FrozenBitmap {
    fn clone(&self) -> (r: Self)
        ensures
            r.src() == self.src(),
    {
        FrozenBitmap::from_bytes_trusted(self.as_bytes())
    }
}

/// Whether two byte strings are the same.
fn same_bytes(a: &[u8], b: &[u8]) -> (r: bool)
    ensures
        r == (a@ == b@),
{
    if a.len() != b.len() {
        return false;
    }
    let mut i: usize = 0;
    while i < a.len()
        invariant
            a.len() == b.len(),
            i <= a.len(),
            forall|k: int| 0 <= k < i ==> a[k] == b[k],
        decreases a.len() - i,
    {
        if a[i] != b[i] {
            assert(a@[i as int] != b@[i as int]);
            return false;
        }
        i = i + 1;
    }
    assert(a@ =~= b@);
    true
}

impl PartialEq for FrozenBitmap {
    /// Set equality, with a fast path for identical bytes. Bitmaps of the same values
    /// in different encodings are equal.
    fn eq(&self, other: &Self) -> (r: bool) {
        same_bytes(self.as_bytes(), other.as_bytes()) || self.view() == other.view()
    }
}

impl vstd::std_specs::cmp::PartialEqSpecImpl for FrozenBitmap {
    open spec fn obeys_eq_spec() -> bool {
        true
    }

    open spec fn eq_spec(&self, other: &Self) -> bool {
        self.set() == other.set()
    }
}

} // verus!
