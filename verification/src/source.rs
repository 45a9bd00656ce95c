//! Fold inputs, unified over frozen leaves and working arenas.
//!
//! A tree evaluator folds a mix of leaf views and intermediate arenas. An arena is
//! read directly as an ordered container source, and the [`Inputs`] trait lets planner
//! and kernels drive either kind through one code path.
use vstd::prelude::*;

use crate::cursor::{frozen_form, frozen_stored, ContainerCursor};
use crate::frozen::{lemma_std, std_blocks};
use crate::model::{
    blocks_ok, blocks_set, hi, is_first, lemma_under_block, lemma_under_none, lemma_under_some,
    past, under, Block,
};
use crate::view::FrozenBitmapView;

verus! {

/// The block keys of a set.
pub open spec fn keys_of(s: Set<u32>) -> Set<u16> {
    Set::new(|k: u16| under(s, k).len() > 0)
}

/// A list of fold inputs that planner and kernels iterate uniformly.
pub trait Inputs {
    /// The inputs may be read.
    spec fn ok(&self) -> bool;

    /// Number of inputs.
    spec fn count(&self) -> nat;

    /// The values of input `i`.
    spec fn set_at(&self, i: int) -> Set<u32>;

    /// Stored bytes of input `i`'s container under `key`.
    spec fn stored_at(&self, i: int, key: u16) -> int;

    /// Form of input `i`'s container under `key`.
    spec fn form_at(&self, i: int, key: u16) -> u8;

    /// Containers of input `i` before masking.
    spec fn width_at(&self, i: int) -> nat;

    /// Number of inputs.
    fn len(&self) -> (r: usize)
        ensures
            r == self.count(),
    ;

    /// Ascending cursor over input `i`.
    fn cursor(&self, i: usize) -> (r: ContainerCursor<'_>)
        requires
            self.ok(),
            i < self.count(),
        ensures
            r.wf(),
            r.rest() == self.set_at(i as int),
            forall|key: u16| #[trigger] r.stored(key) == self.stored_at(i as int, key),
            forall|key: u16| #[trigger] r.form(key) == self.form_at(i as int, key),
    ;

    /// Container count of input `i` (drives the choice of the seed).
    fn container_count(&self, i: usize) -> (r: usize)
        requires
            self.ok(),
            i < self.count(),
        ensures
            r == self.width_at(i as int),
    ;

    /// There is no input.
    fn is_empty(&self) -> (r: bool)
        ensures
            r <==> self.count() == 0,
    {
        self.len() == 0
    }
}

impl<'b> Inputs for [FrozenBitmapView<'b>] {
    open spec fn ok(&self) -> bool {
        true
    }

    open spec fn count(&self) -> nat {
        self@.len()
    }

    open spec fn set_at(&self, i: int) -> Set<u32> {
        self@[i]@
    }

    open spec fn stored_at(&self, i: int, key: u16) -> int {
        frozen_stored(self@[i].src(), key)
    }

    open spec fn form_at(&self, i: int, key: u16) -> u8 {
        frozen_form(self@[i].src(), key)
    }

    open spec fn width_at(&self, i: int) -> nat {
        keys_of(self@[i]@).len()
    }

    fn len(&self) -> (r: usize) {
        let n: usize = <[FrozenBitmapView<'b>]>::len(self);
        n
    }

    fn cursor(&self, i: usize) -> (r: ContainerCursor<'_>) {
        ContainerCursor::new(&self[i])
    }

    fn container_count(&self, i: usize) -> (r: usize) {
        view_container_count(&self[i])
    }
}

// A fold can be driven from a fixed-size array or a `Vec`, not just a slice.
impl<'b, const N: usize> Inputs for [FrozenBitmapView<'b>; N] {
    open spec fn ok(&self) -> bool {
        true
    }

    open spec fn count(&self) -> nat {
        self@.len()
    }

    open spec fn set_at(&self, i: int) -> Set<u32> {
        self@[i]@
    }

    open spec fn stored_at(&self, i: int, key: u16) -> int {
        frozen_stored(self@[i].src(), key)
    }

    open spec fn form_at(&self, i: int, key: u16) -> u8 {
        frozen_form(self@[i].src(), key)
    }

    open spec fn width_at(&self, i: int) -> nat {
        keys_of(self@[i]@).len()
    }

    fn len(&self) -> (r: usize) {
        N
    }

    fn cursor(&self, i: usize) -> (r: ContainerCursor<'_>) {
        ContainerCursor::new(&self[i])
    }

    fn container_count(&self, i: usize) -> (r: usize) {
        view_container_count(&self[i])
    }
}

impl<'b> Inputs for Vec<FrozenBitmapView<'b>> {
    open spec fn ok(&self) -> bool {
        true
    }

    open spec fn count(&self) -> nat {
        self@.len()
    }

    open spec fn set_at(&self, i: int) -> Set<u32> {
        self@[i]@
    }

    open spec fn stored_at(&self, i: int, key: u16) -> int {
        frozen_stored(self@[i].src(), key)
    }

    open spec fn form_at(&self, i: int, key: u16) -> u8 {
        frozen_form(self@[i].src(), key)
    }

    open spec fn width_at(&self, i: int) -> nat {
        keys_of(self@[i]@).len()
    }

    fn len(&self) -> (r: usize) {
        let n: usize = Vec::<FrozenBitmapView<'b>>::len(self);
        n
    }

    fn cursor(&self, i: usize) -> (r: ContainerCursor<'_>) {
        ContainerCursor::new(&self[i])
    }

    fn container_count(&self, i: usize) -> (r: usize) {
        view_container_count(&self[i])
    }
}

/// Keys of blocks.
pub proof fn lemma_keys_of_blocks(s: Seq<Block>)
    requires
        blocks_ok(s),
    ensures
        keys_of(blocks_set(s)).finite(),
        keys_of(blocks_set(s)).len() == s.len(),
{
    let ks = Seq::new(s.len(), |i: int| s[i].key);
    assert forall|i: int, j: int| 0 <= i < j < ks.len() implies ks[i] < ks[j] by {
        assert(s[i].key < s[j].key);
    }
    crate::model::lemma_asc16_len(ks);
    assert forall|k: u16| keys_of(blocks_set(s)).contains(k) == ks.to_set().contains(k) by {
        if ks.contains(k) {
            let i = choose|i: int| 0 <= i < ks.len() && ks[i] == k;
            lemma_under_block(s, i);
            assert(s[i].lows.len() > 0);
        } else {
            assert forall|i: int| 0 <= i < s.len() implies (#[trigger] s[i]).key != k by {
                assert(ks[i] == s[i].key);
            }
            lemma_under_none(s, k);
        }
    }
    assert(keys_of(blocks_set(s)) =~= ks.to_set());
}

/// Passing a block removes its key.
pub proof fn lemma_keys_past(s: Set<u32>, key: u16)
    requires
        is_first(s, key),
    ensures
        keys_of(past(s, key)) == keys_of(s).remove(key),
        keys_of(s).contains(key),
{
    assert forall|k: u16| keys_of(past(s, key)).contains(k) == keys_of(s).remove(key).contains(k) by {
        lemma_under_some(s, k);
        lemma_under_some(past(s, key), k);
        if keys_of(s).contains(k) && k != key {
            let v = choose|v: u32| #[trigger] s.contains(v) && hi(v) == k;
            assert(past(s, key).contains(v));
        }
        if keys_of(past(s, key)).contains(k) {
            let v = choose|v: u32| #[trigger] past(s, key).contains(v) && hi(v) == k;
            assert(s.contains(v));
        }
    }
    assert(keys_of(past(s, key)) =~= keys_of(s).remove(key));
}

/// Container count of a leaf: read off for standard, a walk for inline.
pub fn view_container_count(v: &FrozenBitmapView) -> (r: usize)
    ensures
        r == keys_of(v@).len(),
{
    if v.is_inline() {
        let mut c: ContainerCursor = ContainerCursor::new(v);
        let mut n: usize = 0;
        proof {
            crate::model::lemma_set16(keys_of(v@));
        }
        loop
            invariant
                c.wf(),
                n + keys_of(c.rest()).len() == keys_of(v@).len(),
                keys_of(v@).len() <= 65536,
            decreases c.left(),
        {
            match c.peek_key() {
                None => {
                    proof {
                        lemma_no_keys();
                    }
                    return n;
                },
                Some(key) => {
                    proof {
                        lemma_keys_past(c.rest(), key);
                        crate::model::lemma_set16(keys_of(c.rest()));
                        lemma_under_some(c.rest(), key);
                    }
                    c.advance();
                    n = n + 1;
                },
            }
        }
    } else {
        v.well_formed();
        proof {
            lemma_std(v.src());
            lemma_keys_of_blocks(std_blocks(v.src()));
        }
        v.num_containers()
    }
}

/// The empty set has no keys.
pub proof fn lemma_no_keys()
    ensures
        keys_of(Set::<u32>::empty()) == Set::<u16>::empty(),
{
    assert forall|k: u16| !keys_of(Set::<u32>::empty()).contains(k) by {
        lemma_under_some(Set::<u32>::empty(), k);
    }
    assert(keys_of(Set::<u32>::empty()) =~= Set::<u16>::empty());
}

} // verus!
