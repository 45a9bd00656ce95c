//! One workload in two engines: the frozen bitmaps of this crate beside
//! `roaring::RoaringBitmap`s of the same values, with the N-way operations of both.
use vstd::prelude::*;

use roaring::{MultiOps, RoaringBitmap};

use crate::bitmap::FrozenBitmap;
use crate::builder::{array_cost, run_cost, FrozenBitmapBuilder};
use crate::convert::{roaring_append, roaring_from, roaring_new, roaring_set};
use crate::format::BITMAP_BYTES;
use crate::iter::Iter;
use crate::machine::op_set;
use crate::model::{asc32, lemma_set32, under};
use crate::plan::Op;
use crate::view::FrozenBitmapView;

verus! {

/// The sets of a list of roaring bitmaps.
pub open spec fn roaring_sets(rbs: Seq<RoaringBitmap>) -> Seq<Set<u32>> {
    Seq::new(rbs.len(), |i: int| roaring_set(rbs[i]))
}

// --- the roaring side -------------------------------------------------------------------

/// `MultiOps::intersection` over references: the values that all bitmaps hold. No bitmap
/// gives the empty one.
#[verifier::external_body]
pub fn rb_and(r: &[RoaringBitmap]) -> (t: RoaringBitmap)
    ensures
        roaring_set(t) == op_set(Op::Intersect, roaring_sets(r@)),
{
    r.iter().intersection()
}

/// `MultiOps::union` over references: the values that some bitmap holds.
#[verifier::external_body]
pub fn rb_or(r: &[RoaringBitmap]) -> (t: RoaringBitmap)
    ensures
        roaring_set(t) == op_set(Op::Union, roaring_sets(r@)),
{
    r.iter().union()
}

/// `MultiOps::difference` over references: the values of the first bitmap that no other
/// one holds. No bitmap gives the empty one.
#[verifier::external_body]
pub fn rb_diff(r: &[RoaringBitmap]) -> (t: RoaringBitmap)
    ensures
        roaring_set(t) == op_set(Op::Diff, roaring_sets(r@)),
{
    r.iter().difference()
}

/// `RoaringBitmap::sub` on references: the values of `a` that `b` does not hold.
#[verifier::external_body]
pub(crate) fn roaring_sub(a: &RoaringBitmap, b: &RoaringBitmap) -> (t: RoaringBitmap)
    ensures
        roaring_set(t) == roaring_set(*a).difference(roaring_set(*b)),
{
    a - b
}

/// `RoaringBitmap::clone`: a bitmap of the same values.
#[verifier::external_body]
pub(crate) fn roaring_clone(a: &RoaringBitmap) -> (t: RoaringBitmap)
    ensures
        roaring_set(t) == roaring_set(*a),
{
    a.clone()
}

/// The keys of the blocks that a roaring bitmap stores as runs.
pub uninterp spec fn roaring_runs(rb: RoaringBitmap) -> Set<u16>;

/// Runs take fewer bytes than the values of the block listed, and than a bitmap.
pub open spec fn runs_win(lows: Set<u16>) -> bool {
    run_cost(lows) < array_cost(lows) && run_cost(lows) < BITMAP_BYTES
}

/// Every block of `before` for which runs win is stored as runs in `after`, unless it was
/// stored as runs before.
pub open spec fn run_optimized(before: RoaringBitmap, after: RoaringBitmap) -> bool {
    forall|key: u16|
        runs_win(#[trigger] under(roaring_set(before), key)) && !roaring_runs(before).contains(key)
            ==> roaring_runs(after).contains(key)
}

/// `RoaringBitmap::optimize`: no value changes, and a block stored as an array or a bitmap is
/// re-encoded as runs where they are smaller. Reports whether a block was re-encoded. Of a
/// block stored as runs, which goes by the number of runs it happens to be stored in, it is
/// not said whether it stays so.
#[verifier::external_body]
fn roaring_optimize(a: &mut RoaringBitmap) -> (changed: bool)
    ensures
        roaring_set(*final(a)) == roaring_set(*old(a)),
        run_optimized(*old(a), *final(a)),
        changed == (roaring_runs(*final(a)) != roaring_runs(*old(a))),
{
    a.optimize()
}

/// The values of a roaring bitmap, ascending.
pub fn rb_vec(r: &RoaringBitmap) -> (v: Vec<u32>)
    ensures
        asc32(v@),
        v@.to_set() == roaring_set(*r),
{
    let mut out: Vec<u32> = Vec::new();
    let mut next: Option<u32> = roaring_from(r, 0);
    loop
        invariant
            asc32(out@),
            match next {
                Some(v) => {
                    &&& roaring_set(*r).contains(v)
                    &&& forall|x: u32| #[trigger]
                        out@.to_set().contains(x) <==> roaring_set(*r).contains(x) && x < v
                },
                None => out@.to_set() == roaring_set(*r),
            },
        decreases
                match next {
                    Some(v) => 0x1_0000_0000 - v,
                    None => 0,
                },
    {
        match next {
            None => {
                return out;
            },
            Some(v) => {
                let ghost before = out@;
                proof {
                    assert forall|i: int| 0 <= i < before.len() implies before[i] < v by {
                        assert(before.to_set().contains(before[i]));
                    }
                }
                out.push(v);
                proof {
                    before.lemma_push_to_set_commute(v);
                }
                if v == u32::MAX {
                    next = None;
                } else {
                    next = roaring_from(r, v + 1);
                }
                proof {
                    if next is None {
                        assert(out@.to_set() =~= roaring_set(*r));
                    }
                }
            },
        }
    }
}

/// The values of a frozen bitmap, ascending.
pub fn fb_vec(b: &FrozenBitmap) -> (v: Vec<u32>)
    ensures
        asc32(v@),
        v@.to_set() == b.set(),
{
    let mut out: Vec<u32> = Vec::new();
    let mut it: Iter = b.iter();
    assert(out@.to_set().union(it.rest()) =~= b.set());
    loop
        invariant
            asc32(out@),
            out@.to_set().union(it.rest()) == b.set(),
            forall|i: int, y: u32|
                0 <= i < out.len() && #[trigger] it.rest().contains(y) ==> #[trigger] out@[i] < y,
        decreases it.rest().len(),
    {
        let ghost (before, rest) = (out@, it.rest());
        proof {
            lemma_set32(rest);
        }
        match it.next() {
            None => {
                assert(out@.to_set() =~= b.set());
                return out;
            },
            Some(v) => {
                out.push(v);
                proof {
                    before.lemma_push_to_set_commute(v);
                    assert(out@.to_set().union(it.rest()) =~= b.set());
                }
            },
        }
    }
}

// --- a workload -------------------------------------------------------------------------

/// One list of inputs in both representations.
pub struct Workload {
    pub fbs: Vec<FrozenBitmap>,
    pub rbs: Vec<RoaringBitmap>,
}

impl Workload {
    /// The set behind each input.
    pub open spec fn sets(&self) -> Seq<Set<u32>> {
        Seq::new(self.fbs.len() as nat, |i: int| self.fbs[i].set())
    }

    /// Both engines hold the same inputs.
    pub open spec fn wf(&self) -> bool {
        roaring_sets(self.rbs@) == self.sets()
    }

    /// Both representations of each of the ascending value lists.
    pub fn new(inputs: &[Vec<u32>]) -> (r: Self)
        requires
            forall|i: int| 0 <= i < inputs.len() ==> asc32(#[trigger] inputs[i]@),
        ensures
            r.wf(),
            r.sets() == Seq::new(inputs@.len(), |i: int| inputs[i]@.to_set()),
    {
        let mut fbs: Vec<FrozenBitmap> = Vec::new();
        let mut rbs: Vec<RoaringBitmap> = Vec::new();
        let mut k: usize = 0;
        while k < inputs.len()
            invariant
                forall|i: int| 0 <= i < inputs.len() ==> asc32(#[trigger] inputs[i]@),
                k <= inputs.len(),
                fbs.len() == k,
                rbs.len() == k,
                forall|i: int| 0 <= i < k ==> (#[trigger] fbs[i]).set() == inputs[i]@.to_set(),
                forall|i: int|
                    0 <= i < k ==> roaring_set(#[trigger] rbs[i]) == inputs[i]@.to_set(),
            decreases inputs.len() - k,
        {
            let mut b: FrozenBitmapBuilder = FrozenBitmapBuilder::new();
            b.extend_sorted(inputs[k].as_slice());
            fbs.push(b.finish());
            let mut rb: RoaringBitmap = roaring_new();
            let _ok: bool = roaring_append(&mut rb, &inputs[k]);
            proof {
                assert(roaring_set(rb) =~= inputs[k as int]@.to_set());
                assert(fbs[k as int].set() =~= inputs[k as int]@.to_set());
            }
            rbs.push(rb);
            k = k + 1;
        }
        let r = Workload { fbs, rbs };
        assert(roaring_sets(r.rbs@) =~= r.sets());
        assert(r.sets() =~= Seq::new(inputs@.len(), |i: int| inputs[i]@.to_set()));
        r
    }

    /// Run-optimize the roaring side: each block goes into runs where they are smaller.
    pub fn optimize_roaring(&mut self)
        requires
            old(self).wf(),
        ensures
            final(self).wf(),
            final(self).sets() == old(self).sets(),
            final(self).fbs == old(self).fbs,
            forall|i: int|
                0 <= i < old(self).rbs.len() ==> run_optimized(
                    #[trigger] old(self).rbs[i],
                    final(self).rbs[i],
                ),
    {
        let ghost was = self.rbs@;
        let mut done: Vec<RoaringBitmap> = Vec::new();
        let ghost before = roaring_sets(self.rbs@);
        let mut left: usize = self.rbs.len();
        while left > 0
            invariant
                self.fbs == old(self).fbs,
                self.rbs.len() == left,
                left + done.len() == before.len() == was.len(),
                was == old(self).rbs@,
                forall|i: int| 0 <= i < left ==> #[trigger] self.rbs[i] == was[i],
                forall|i: int|
                    0 <= i < done.len() ==> run_optimized(
                        was[was.len() - 1 - i],
                        #[trigger] done[i],
                    ),
                forall|i: int| 0 <= i < left ==> roaring_set(#[trigger] self.rbs[i]) == before[i],
                forall|i: int|
                    0 <= i < done.len() ==> roaring_set(#[trigger] done[i]) == before[before.len()
                        - 1 - i],
            decreases left,
        {
            match self.rbs.pop() {
                Some(rb) => {
                    let mut rb: RoaringBitmap = rb;
                    let _changed: bool = roaring_optimize(&mut rb);
                    done.push(rb);
                },
                None => {},
            }
            left = left - 1;
        }
        while done.len() > 0
            invariant
                self.fbs == old(self).fbs,
                self.rbs.len() + done.len() == before.len() == was.len(),
                was == old(self).rbs@,
                forall|i: int|
                    0 <= i < self.rbs.len() ==> run_optimized(was[i], #[trigger] self.rbs[i]),
                forall|i: int|
                    0 <= i < done.len() ==> run_optimized(
                        was[was.len() - 1 - i],
                        #[trigger] done[i],
                    ),
                forall|i: int|
                    0 <= i < self.rbs.len() ==> roaring_set(#[trigger] self.rbs[i]) == before[i],
                forall|i: int|
                    0 <= i < done.len() ==> roaring_set(#[trigger] done[i]) == before[before.len()
                        - 1 - i],
            decreases done.len(),
        {
            match done.pop() {
                Some(rb) => {
                    self.rbs.push(rb);
                },
                None => {},
            }
        }
        assert(roaring_sets(self.rbs@) =~= before);
        assert forall|i: int| 0 <= i < was.len() implies run_optimized(
            #[trigger] was[i],
            self.rbs[i],
        ) by {}
    }

    /// Views of the first `n` frozen bitmaps.
    pub fn views(&self, n: usize) -> (r: Vec<FrozenBitmapView<'_>>)
        requires
            n <= self.fbs.len(),
        ensures
            r.len() == n,
            forall|i: int| 0 <= i < n ==> (#[trigger] r[i])@ == self.fbs[i].set(),
    {
        let mut out: Vec<FrozenBitmapView<'_>> = Vec::new();
        let mut k: usize = 0;
        while k < n
            invariant
                k <= n <= self.fbs.len(),
                out.len() == k,
                forall|i: int| 0 <= i < k ==> (#[trigger] out[i])@ == self.fbs[i].set(),
            decreases n - k,
        {
            out.push(self.fbs[k].view());
            k = k + 1;
        }
        out
    }

    /// View of frozen bitmap `i`.
    pub fn fv(&self, i: usize) -> (r: FrozenBitmapView<'_>)
        requires
            i < self.fbs.len(),
        ensures
            r@ == self.fbs[i as int].set(),
    {
        self.fbs[i].view()
    }

    /// Number of inputs.
    pub fn len(&self) -> (r: usize)
        ensures
            r == self.sets().len(),
    {
        self.fbs.len()
    }

    /// There is no input.
    pub fn is_empty(&self) -> (r: bool)
        ensures
            r <==> self.sets().len() == 0,
    {
        self.fbs.len() == 0
    }
}

} // verus!
