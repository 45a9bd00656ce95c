//! Conversions to and from `roaring::RoaringBitmap`.
use vstd::prelude::*;

use roaring::RoaringBitmap;

use crate::bitmap::FrozenBitmap;
use crate::builder::FrozenBitmapBuilder;
use crate::canon::finished;
use crate::iter::Iter;
use crate::model::{asc32, lemma_set32};
use crate::view::FrozenBitmapView;

verus! {

#[verifier::external_type_specification]
#[verifier::external_body]
pub struct ExRoaringBitmap(roaring::RoaringBitmap);

/// The values of a roaring bitmap.
pub uninterp spec fn roaring_set(rb: RoaringBitmap) -> Set<u32>;

/// `RoaringBitmap::new`: the empty bitmap.
#[verifier::external_body]
pub(crate) fn roaring_new() -> (r: RoaringBitmap)
    ensures
        roaring_set(r) == Set::<u32>::empty(),
{
    RoaringBitmap::new()
}

/// `RoaringBitmap::range` over `from..`, its first value: the smallest value of the
/// bitmap at or past `from`, if any.
#[verifier::external_body]
pub(crate) fn roaring_from(rb: &RoaringBitmap, from: u32) -> (r: Option<u32>)
    ensures
        match r {
            Some(v) => {
                &&& roaring_set(*rb).contains(v)
                &&& from <= v
                &&& forall|x: u32| from <= x < v ==> !(#[trigger] roaring_set(*rb).contains(x))
            },
            None => forall|x: u32| from <= x ==> !(#[trigger] roaring_set(*rb).contains(x)),
        },
{
    rb.range(from..).next()
}

/// `RoaringBitmap::append`: ascending values past the largest of the bitmap are all
/// added. Reports whether it succeeded, which on such values it does.
#[verifier::external_body]
pub(crate) fn roaring_append(rb: &mut RoaringBitmap, vals: &Vec<u32>) -> (r: bool)
    requires
        asc32(vals@),
        forall|x: u32, i: int|
            #[trigger] roaring_set(*old(rb)).contains(x) && 0 <= i < vals.len() ==> x
                < #[trigger] vals[i],
    ensures
        r,
        roaring_set(*final(rb)) == roaring_set(*old(rb)).union(vals@.to_set()),
{
    rb.append(vals.iter().copied()).is_ok()
}

impl FrozenBitmap {
    /// Compact frozen bitmap of the same values as `rb`.
    pub fn from_roaring(rb: &RoaringBitmap) -> (r: Self)
        ensures
            r.set() == roaring_set(*rb),
            finished(r.src(), roaring_set(*rb)),
    {
        let mut b: FrozenBitmapBuilder = FrozenBitmapBuilder::new();
        let mut next: Option<u32> = roaring_from(rb, 0);
        loop
            invariant
                b.wf(),
                match next {
                    Some(v) => {
                        &&& roaring_set(*rb).contains(v)
                        &&& forall|x: u32| #[trigger]
                            b.set().contains(x) <==> roaring_set(*rb).contains(x) && x < v
                    },
                    None => b.set() == roaring_set(*rb),
                },
            decreases
                    match next {
                        Some(v) => 0x1_0000_0000 - v,
                        None => 0,
                    },
        {
            match next {
                None => {
                    return b.finish();
                },
                Some(v) => {
                    b.push(v);
                    if v == u32::MAX {
                        next = None;
                    } else {
                        next = roaring_from(rb, v + 1);
                    }
                    proof {
                        if next is None {
                            assert(b.set() =~= roaring_set(*rb));
                        }
                    }
                },
            }
        }
    }

    /// Materialize as a mutable roaring bitmap.
    pub fn to_roaring(&self) -> (r: RoaringBitmap)
        ensures
            roaring_set(r) == self.set(),
    {
        self.view().to_roaring()
    }
}

/// Values handed over at a time.
const CHUNK: usize = 4096;

impl<'a> FrozenBitmapView<'a> {
    /// Materialize as a mutable roaring bitmap.
    pub fn to_roaring(&self) -> (r: RoaringBitmap)
        ensures
            roaring_set(r) == self@,
    {
        let mut rb: RoaringBitmap = roaring_new();
        let mut it: Iter<'a> = self.iter();
        let mut more: bool = true;
        assert(roaring_set(rb).union(it.rest()) =~= self@);
        while more
            invariant
                roaring_set(rb).union(it.rest()) == self@,
                forall|x: u32, y: u32| #[trigger]
                    roaring_set(rb).contains(x) && #[trigger] it.rest().contains(y) ==> x < y,
                !more ==> it.rest() == Set::<u32>::empty(),
            decreases it.rest().len() + if more { 1nat } else { 0 },
        {
            let ghost rest0 = it.rest();
            let (chunk, done): (Vec<u32>, bool) = take_chunk(&mut it);
            proof {
                lemma_set32(rest0);
                assert forall|x: u32, i: int|
                    #[trigger] roaring_set(rb).contains(x) && 0 <= i < chunk.len() implies x
                    < #[trigger] chunk[i] by {
                    assert(chunk@.contains(chunk@[i]));
                    assert(rest0.contains(chunk@[i]));
                }
            }
            let ghost before = roaring_set(rb);
            let _ok: bool = roaring_append(&mut rb, &chunk);
            if done {
                more = false;
            }
            proof {
                assert forall|x: u32, y: u32| #[trigger]
                    roaring_set(rb).contains(x) && #[trigger] it.rest().contains(y) implies x < y by {
                    assert(rest0.contains(y));
                    if !before.contains(x) {
                        let i = choose|i: int| 0 <= i < chunk.len() && chunk@[i] == x;
                        assert(chunk@[i] < y);
                    }
                }
            }
            assert(roaring_set(rb).union(it.rest()) =~= self@);
        }
        assert(roaring_set(rb) =~= self@);
        rb
    }
}

/// Take the next values off an iterator, up to [`CHUNK`] of them, and tell whether
/// it has run out.
fn take_chunk(it: &mut Iter) -> (r: (Vec<u32>, bool))
    ensures
        asc32(r.0@),
        r.0@.to_set().union(final(it).rest()) == old(it).rest(),
        forall|i: int, y: u32|
            0 <= i < r.0.len() && #[trigger] final(it).rest().contains(y) ==> #[trigger] r.0@[i] < y,
        r.1 ==> final(it).rest() == Set::<u32>::empty(),
        !r.1 ==> final(it).rest().len() < old(it).rest().len(),
{
    let mut out: Vec<u32> = Vec::with_capacity(CHUNK);
    proof {
        lemma_set32(it.rest());
        assert(out@.to_set().union(it.rest()) =~= it.rest());
    }
    while out.len() < CHUNK
        invariant
            asc32(out@),
            out@.to_set().union(it.rest()) == old(it).rest(),
            forall|i: int, y: u32|
                0 <= i < out.len() && #[trigger] it.rest().contains(y) ==> #[trigger] out@[i] < y,
            out.len() <= CHUNK,
            it.rest().len() + out.len() == old(it).rest().len(),
        decreases CHUNK - out.len(),
    {
        let ghost (before, rest) = (out@, it.rest());
        match it.next() {
            None => {
                return (out, true);
            },
            Some(v) => {
                out.push(v);
                proof {
                    lemma_set32(rest);
                    before.lemma_push_to_set_commute(v);
                    assert(out@.to_set().union(it.rest()) =~= old(it).rest());
                }
            },
        }
    }
    (out, false)
}

impl From<&RoaringBitmap> for FrozenBitmap {
    fn from(rb: &RoaringBitmap) -> (r: Self)
        ensures
            r.set() == roaring_set(*rb),
            finished(r.src(), roaring_set(*rb)),
    {
        FrozenBitmap::from_roaring(rb)
    }
}

impl vstd::std_specs::convert::FromSpecImpl<&RoaringBitmap> for FrozenBitmap {
    open spec fn obeys_from_spec() -> bool {
        false
    }

    open spec fn from_spec(rb: &RoaringBitmap) -> Self {
        arbitrary()
    }
}

impl From<&FrozenBitmap> for RoaringBitmap {
    fn from(fb: &FrozenBitmap) -> (r: RoaringBitmap)
        ensures
            roaring_set(r) == fb.set(),
    {
        fb.to_roaring()
    }
}

impl vstd::std_specs::convert::FromSpecImpl<&FrozenBitmap> for RoaringBitmap {
    open spec fn obeys_from_spec() -> bool {
        false
    }

    open spec fn from_spec(fb: &FrozenBitmap) -> RoaringBitmap {
        arbitrary()
    }
}

} // verus!
