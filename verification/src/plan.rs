//! Static analysis for AND, OR and DIFF: the output containers, and a
//! proven-sufficient byte capacity for each, so that an op's arena is allocated once
//! and no slot ever grows.
use vstd::prelude::*;

use crate::accum::weights;
use crate::cursor::{ContainerCursor, ContainerRef};
use crate::decide::{
    diff_cap, shrink_cap, shrink_cap_spec, union_cap, union_key, Fanin, UnionKey,
};
use crate::format::{BITMAP_BYTES, CT_BITMAP, CT_RUN};
use crate::model::{
    hi, is_first, join, lemma_onward, lemma_onward_none, lemma_set16, lemma_under_onward,
    lemma_under_some, lo, onward, past, under,
};
use crate::source::{keys_of, Inputs};
use crate::walk::{
    any_under, fewest, gather_all, gather_min, gathered, lemma_first, lemma_sourced, lemma_tracks,
    lemma_tracks_on, lined_up, min_key, open_from, open_others, refs_any, refs_ok, sourced, tracks,
};

verus! {

#[derive(Debug, Clone, Copy, PartialEq, Eq, Structural)]
pub enum Op {
    Intersect,
    Union,
    Diff,
}

/// One output container: its key and a byte ceiling for its slot.
#[derive(Debug, Clone, Copy, PartialEq, Eq, Structural)]
pub struct SlotPlan {
    pub key: u16,
    pub capacity: u32,
}

/// Scratch of every plan: two bitmaps.
pub const SCRATCH_BYTES: usize = 16384;

/// Most scratch an arena lays out.
pub const MAX_SCRATCH_BYTES: usize = 0x1000_0000;

/// Output container layout for one op, ascending by key.
#[derive(Debug)]
pub struct Plan {
    pub op: Op,
    pub slots: Vec<SlotPlan>,
    /// Bytes of scratch behind the slots.
    pub scratch_bytes: usize,
    /// Allocate a second slot region: the op folds partner-major, and each step writes
    /// an accumulator to the side it was not read from.
    pub double: bool,
}

/// Keys strictly ascend, and no slot exceeds a bitmap.
pub open spec fn slots_ok(s: Seq<SlotPlan>) -> bool {
    &&& forall|i: int, j: int| 0 <= i < j < s.len() ==> (#[trigger] s[i]).key < (#[trigger] s[j]).key
    &&& forall|i: int| 0 <= i < s.len() ==> (#[trigger] s[i]).capacity <= BITMAP_BYTES
}

/// Strictly ascending 16-bit slot keys number at most 65536.
pub proof fn lemma_slots_count(s: Seq<SlotPlan>)
    requires
        slots_ok(s),
    ensures
        s.len() <= 65536,
{
    if s.len() > 65536 {
        lemma_slot_key(s, 65536);
    }
}

proof fn lemma_slot_key(s: Seq<SlotPlan>, i: int)
    requires
        slots_ok(s),
        0 <= i < s.len(),
    ensures
        i <= s[i].key,
    decreases i,
{
    if i > 0 {
        lemma_slot_key(s, i - 1);
        assert(s[i - 1].key < s[i].key);
    }
}

impl Plan {
    pub open spec fn wf(self) -> bool {
        slots_ok(self.slots@) && self.scratch_bytes <= MAX_SCRATCH_BYTES
    }

    /// The same plan.
    pub fn copy(&self) -> (r: Self)
        ensures
            r.op == self.op,
            r.slots@ == self.slots@,
            r.double == self.double,
            r.scratch_bytes == self.scratch_bytes,
    {
        let mut slots: Vec<SlotPlan> = Vec::with_capacity(self.slots.len());
        let mut i: usize = 0;
        while i < self.slots.len()
            invariant
                i <= self.slots.len(),
                slots@ == self.slots@.take(i as int),
            decreases self.slots.len() - i,
        {
            slots.push(self.slots[i]);
            i = i + 1;
            assert(slots@ =~= self.slots@.take(i as int));
        }
        assert(slots@ =~= self.slots@);
        Plan { op: self.op, slots, scratch_bytes: self.scratch_bytes, double: self.double }
    }

    /// Number of planned slots.
    pub fn num_slots(&self) -> (r: usize)
        ensures
            r == self.slots@.len(),
    {
        self.slots.len()
    }
}

// --- what a plan must cover ----------------------------------------------------

/// Slot `s` is planned for `key`.
pub open spec fn planned(slots: Seq<SlotPlan>, s: int, key: u16) -> bool {
    0 <= s < slots.len() && slots[s].key == key
}

/// Some slot is planned for `key`.
pub open spec fn has_slot(slots: Seq<SlotPlan>, key: u16) -> bool {
    exists|s: int| #[trigger] planned(slots, s, key)
}

/// Every input holds something under `key`.
pub open spec fn in_all<I: Inputs + ?Sized>(inputs: &I, key: u16) -> bool {
    &&& inputs.count() > 0
    &&& forall|i: int| 0 <= i < inputs.count() ==> under(#[trigger] inputs.set_at(i), key).len() > 0
}

/// `cap` bytes hold what an AND can leave under `key`: whatever the smallest input
/// there shrinks to.
pub open spec fn and_room<I: Inputs + ?Sized>(cap: int, inputs: &I, key: u16) -> bool {
    exists|i: int|
        0 <= i < inputs.count() && cap >= shrink_cap_spec(
            under(#[trigger] inputs.set_at(i), key).len() as int,
        )
}

/// `c` is the smallest number of values an input has under `key`.
pub open spec fn is_least<I: Inputs + ?Sized>(inputs: &I, key: u16, c: int) -> bool {
    &&& exists|i: int| 0 <= i < inputs.count() && c == under(#[trigger] inputs.set_at(i), key).len()
    &&& forall|i: int| 0 <= i < inputs.count() ==> c <= under(#[trigger] inputs.set_at(i), key).len()
}

/// The slot is for a key of every input, sized for what the smallest there shrinks to.
pub open spec fn and_slot<I: Inputs + ?Sized>(p: SlotPlan, inputs: &I) -> bool {
    in_all(inputs, p.key) && exists|c: int| #[trigger]
        is_least(inputs, p.key, c) && p.capacity == shrink_cap_spec(c)
}

/// The slots cover an AND of `inputs`.
pub open spec fn fits_and<I: Inputs + ?Sized>(slots: Seq<SlotPlan>, inputs: &I) -> bool {
    forall|key: u16| #[trigger]
        in_all(inputs, key) ==> exists|s: int| #[trigger]
            planned(slots, s, key) && and_room(slots[s].capacity as int, inputs, key)
}

/// The union of the inputs.
pub open spec fn union_of<I: Inputs + ?Sized>(inputs: &I) -> Set<u32> {
    Set::new(
        |v: u32| exists|i: int| 0 <= i < inputs.count() && (#[trigger] inputs.set_at(i)).contains(v),
    )
}

/// A key of the union.
pub open spec fn in_any<I: Inputs + ?Sized>(inputs: &I, key: u16) -> bool {
    under(union_of(inputs), key).len() > 0
}

/// The intersection of the inputs; of no inputs, nothing.
pub open spec fn intersection_of<I: Inputs + ?Sized>(inputs: &I) -> Set<u32> {
    Set::new(
        |v: u32|
            inputs.count() > 0 && forall|i: int|
                0 <= i < inputs.count() ==> (#[trigger] inputs.set_at(i)).contains(v),
    )
}

/// The first input without the others; of no inputs, nothing.
pub open spec fn difference_of<I: Inputs + ?Sized>(inputs: &I) -> Set<u32> {
    Set::new(
        |v: u32|
            inputs.count() > 0 && inputs.set_at(0).contains(v) && forall|i: int|
                1 <= i < inputs.count() ==> !(#[trigger] inputs.set_at(i)).contains(v),
    )
}

/// `cap` bytes hold the union under `key`: a bitmap, or all of it as an array.
pub open spec fn or_room<I: Inputs + ?Sized>(cap: int, inputs: &I, key: u16) -> bool {
    cap == BITMAP_BYTES || 2 * under(union_of(inputs), key).len() <= cap
}

/// The slots cover an OR of `inputs`.
pub open spec fn fits_or<I: Inputs + ?Sized>(slots: Seq<SlotPlan>, inputs: &I) -> bool {
    forall|key: u16| #[trigger]
        in_any(inputs, key) ==> exists|s: int| #[trigger]
            planned(slots, s, key) && or_room(slots[s].capacity as int, inputs, key)
}

/// The first input holds something under `key`.
pub open spec fn in_lhs<I: Inputs + ?Sized>(inputs: &I, key: u16) -> bool {
    inputs.count() > 0 && under(inputs.set_at(0), key).len() > 0
}

/// Some subtrahend holds something under `key`.
pub open spec fn touched<I: Inputs + ?Sized>(inputs: &I, key: u16) -> bool {
    exists|i: int| 1 <= i < inputs.count() && under(#[trigger] inputs.set_at(i), key).len() > 0
}

/// `cap` bytes hold what a DIFF can leave under `key`: anything, or the first input's
/// container as it is, or, if a subtrahend touches it, whatever it shrinks to.
pub open spec fn diff_room<I: Inputs + ?Sized>(cap: int, inputs: &I, key: u16) -> bool {
    cap == BITMAP_BYTES || cap >= (if touched(inputs, key) {
        shrink_cap_spec(under(inputs.set_at(0), key).len() as int)
    } else {
        inputs.stored_at(0, key)
    })
}

/// The slots cover a DIFF of `inputs`.
pub open spec fn fits_diff<I: Inputs + ?Sized>(slots: Seq<SlotPlan>, inputs: &I) -> bool {
    forall|key: u16| #[trigger]
        in_lhs(inputs, key) ==> exists|s: int| #[trigger]
            planned(slots, s, key) && diff_room(slots[s].capacity as int, inputs, key)
}

// --- planning ----------------------------------------------------------------------

/// The keys that a plan has covered so far lie below `lo`.
spec fn below(slots: Seq<SlotPlan>, lo: int) -> bool {
    slots_ok(slots) && forall|s: int| 0 <= s < slots.len() ==> (#[trigger] slots[s]).key < lo
}

proof fn lemma_push_slot(slots: Seq<SlotPlan>, lo: int, p: SlotPlan)
    requires
        below(slots, lo),
        lo <= p.key,
        p.capacity <= BITMAP_BYTES,
    ensures
        below(slots.push(p), p.key + 1),
        planned(slots.push(p), slots.len() as int, p.key),
        forall|s: int, key: u16| planned(slots, s, key) ==> #[trigger] planned(slots.push(p), s, key),
{
}

/// Plan without capacity analysis for tiny inputs: one bitmap-sized slot for every key
/// of input `seed`. Every state of an AND or DIFF fold fits such a slot, and the keys
/// are a superset of the output's.
pub fn plan_trivial<I: Inputs + ?Sized>(op: Op, inputs: &I, seed: usize) -> (r: Plan)
    requires
        inputs.ok(),
        seed < inputs.count(),
    ensures
        r.wf(),
        r.op == op,
        !r.double,
        r.scratch_bytes == 16384,
        forall|s: int| 0 <= s < r.slots@.len() ==> (#[trigger] r.slots@[s]).capacity == BITMAP_BYTES
            && keys_of(inputs.set_at(seed as int)).contains(r.slots@[s].key),
        forall|key: u16| #[trigger] keys_of(inputs.set_at(seed as int)).contains(key) ==> has_slot(r.slots@, key),
        fits_and(r.slots@, inputs),
        seed == 0 ==> fits_diff(r.slots@, inputs),
{
    let mut slots: Vec<SlotPlan> = Vec::new();
    let mut c: ContainerCursor = inputs.cursor(seed);
    let ghost all = inputs.set_at(seed as int);
    let ghost mut at: int = 0;
    assert(onward(all, 0) =~= all);
    loop
        invariant
            c.wf(),
            c.rest() == onward(all, at),
            below(slots@, at),
            forall|s: int| 0 <= s < slots@.len() ==> (#[trigger] slots@[s]).capacity == BITMAP_BYTES
                && keys_of(all).contains(slots@[s].key),
            forall|key: u16| #[trigger] keys_of(all).contains(key) && key < at ==> has_slot(slots@, key),
        ensures
            c.rest() == Set::<u32>::empty(),
        decreases c.left(),
    {
        match c.peek_key() {
            None => {
                break;
            },
            Some(key) => {
                let slot: SlotPlan = SlotPlan { key, capacity: BITMAP_BYTES as u32 };
                proof {
                    lemma_onward(all, at, key);
                    lemma_push_slot(slots@, at, slot);
                }
                let ghost before = slots@;
                slots.push(slot);
                c.advance();
                proof {
                    assert forall|k: u16| #[trigger] keys_of(all).contains(k) && k < key + 1 implies has_slot(slots@, k) by {
                        if k < at {
                            let s = choose|s: int| #[trigger] planned(before, s, k);
                            assert(planned(slots@, s, k));
                        } else if k == key {
                            assert(planned(slots@, before.len() as int, k));
                        }
                    }
                    at = key + 1;
                }
            },
        }
    }
    proof {
        lemma_onward_none(all, at);
        assert forall|key: u16| #[trigger] keys_of(all).contains(key) implies has_slot(slots@, key) by {
            assert(under(all, key).len() > 0);
            assert(key < at);
        }
        assert forall|key: u16| #[trigger] in_all(inputs, key) implies exists|s: int| #[trigger]
            planned(slots@, s, key) && and_room(slots@[s].capacity as int, inputs, key) by {
            assert(under(inputs.set_at(seed as int), key).len() > 0);
            assert(keys_of(all).contains(key));
            let s = choose|s: int| #[trigger] planned(slots@, s, key);
            assert(planned(slots@, s, key));
            assert(and_room(slots@[s].capacity as int, inputs, key));
        }
        if seed == 0 {
            assert forall|key: u16| #[trigger] in_lhs(inputs, key) implies exists|s: int| #[trigger]
                planned(slots@, s, key) && diff_room(slots@[s].capacity as int, inputs, key) by {
                assert(keys_of(all).contains(key));
                let s = choose|s: int| #[trigger] planned(slots@, s, key);
                assert(planned(slots@, s, key));
            }
        }
    }
    Plan { op, slots, scratch_bytes: SCRATCH_BYTES, double: false }
}

/// Smallest cardinality.
fn min_card(refs: &Vec<ContainerRef>) -> (r: u32)
    requires
        refs_ok(refs@),
        refs.len() > 0,
    ensures
        exists|i: int| 0 <= i < refs.len() && r == (#[trigger] refs@[i]).lows().len(),
        forall|i: int| 0 <= i < refs.len() ==> r <= (#[trigger] refs@[i]).lows().len(),
{
    let mut m: u32 = refs[0].card;
    let mut i: usize = 1;
    assert(m == refs@[0].lows().len());
    while i < refs.len()
        invariant
            refs_ok(refs@),
            1 <= i <= refs.len(),
            exists|k: int| 0 <= k < i && m == (#[trigger] refs@[k]).lows().len(),
            forall|k: int| 0 <= k < i ==> m <= (#[trigger] refs@[k]).lows().len(),
        decreases refs.len() - i,
    {
        if refs[i].card < m {
            m = refs[i].card;
            assert(m == refs@[i as int].lows().len());
        }
        i = i + 1;
    }
    m
}

/// The slots pushed so far are those of an AND under the keys before `at`.
spec fn and_upto<I: Inputs + ?Sized>(slots: Seq<SlotPlan>, inputs: &I, at: int) -> bool {
    &&& below(slots, at)
    &&& forall|s: int| 0 <= s < slots.len() ==> and_slot(#[trigger] slots[s], inputs)
    &&& forall|key: u16| #[trigger]
        in_all(inputs, key) && key < at ==> has_slot(slots, key)
}

proof fn lemma_and_push<I: Inputs + ?Sized>(slots: Seq<SlotPlan>, inputs: &I, at: int, p: SlotPlan)
    requires
        and_upto(slots, inputs, at),
        at <= p.key,
        p.capacity <= BITMAP_BYTES,
        forall|k: u16| at <= k < p.key ==> !(#[trigger] in_all(inputs, k)),
        and_slot(p, inputs),
    ensures
        and_upto(slots.push(p), inputs, p.key + 1),
{
    lemma_push_slot(slots, at, p);
    let t = slots.push(p);
    assert forall|key: u16| #[trigger] in_all(inputs, key) && key < p.key + 1 implies has_slot(t, key) by {
        if key < at {
            let s = choose|s: int| #[trigger] planned(slots, s, key);
            assert(planned(t, s, key));
        } else {
            assert(planned(t, slots.len() as int, key));
        }
    }
}

proof fn lemma_and_skip<I: Inputs + ?Sized>(slots: Seq<SlotPlan>, inputs: &I, at: int, to: int)
    requires
        and_upto(slots, inputs, at),
        at <= to,
        forall|k: u16| at <= k < to ==> !(#[trigger] in_all(inputs, k)),
    ensures
        and_upto(slots, inputs, to),
{
}

/// A key that one input lacks is not in all of them.
proof fn lemma_not_in_all<I: Inputs + ?Sized>(inputs: &I, i: int)
    requires
        0 <= i < inputs.count(),
    ensures
        forall|k: u16| under(inputs.set_at(i), k).len() == 0 ==> !(#[trigger] in_all(inputs, k)),
{
    assert forall|k: u16| under(inputs.set_at(i), k).len() == 0 implies !(#[trigger] in_all(inputs, k)) by {
        if in_all(inputs, k) {
            assert(under(inputs.set_at(i), k).len() > 0);
        }
    }
}

/// Exact slots cover the fold.
proof fn lemma_and_fits<I: Inputs + ?Sized>(slots: Seq<SlotPlan>, inputs: &I)
    requires
        forall|s: int| 0 <= s < slots.len() ==> and_slot(#[trigger] slots[s], inputs),
        forall|key: u16| #[trigger]
            in_all(inputs, key) ==> has_slot(slots, key),
    ensures
        fits_and(slots, inputs),
{
    assert forall|key: u16| #[trigger] in_all(inputs, key) implies exists|s: int| #[trigger]
        planned(slots, s, key) && and_room(slots[s].capacity as int, inputs, key) by {
        let s = choose|s: int| #[trigger] planned(slots, s, key);
        assert(and_slot(slots[s], inputs));
        let c = choose|c: int| #[trigger]
            is_least(inputs, slots[s].key, c) && slots[s].capacity == shrink_cap_spec(c);
        let i = choose|i: int|
            0 <= i < inputs.count() && c == under(#[trigger] inputs.set_at(i), key).len();
        assert(slots[s].capacity >= shrink_cap_spec(under(inputs.set_at(i), key).len() as int));
        assert(planned(slots, s, key));
    }
}

/// Walk driven by the narrowest input, the others skipped to each of its keys.
fn plan_driven<I: Inputs + ?Sized>(inputs: &I, seed: usize) -> (r: Vec<SlotPlan>)
    requires
        inputs.ok(),
        seed < inputs.count(),
    ensures
        and_upto(r@, inputs, 65536),
{
    let mut slots: Vec<SlotPlan> = Vec::new();
    let mut driver: ContainerCursor = inputs.cursor(seed);
    let (mut others, Ghost(order)) = open_others(inputs, seed);
    let ghost all = inputs.set_at(seed as int);
    let ghost mut at: int = 0;
    let n: usize = others.len();
    proof {
        assert(onward(all, 0) =~= all);
        lemma_not_in_all(inputs, seed as int);
        assert forall|j: int| 0 <= j < n implies 0 <= #[trigger] order[j] < inputs.count() by {
            assert(others@[j].wf());
        }
    }
    loop
        invariant
            inputs.ok(),
            seed < inputs.count(),
            all == inputs.set_at(seed as int),
            forall|k: u16| under(all, k).len() == 0 ==> !(#[trigger] in_all(inputs, k)),
            driver.wf(),
            driver.rest() == onward(all, at),
            others.len() == n,
            order.len() == n,
            forall|j: int| 0 <= j < n ==> 0 <= #[trigger] order[j] < inputs.count(),
            forall|i: int| 0 <= i < inputs.count() && i != seed ==> #[trigger] order.contains(i),
            forall|j: int|
                0 <= j < n ==> tracks(#[trigger] others@[j], inputs.set_at(order[j]), at),
            and_upto(slots@, inputs, at),
        decreases driver.left(),
    {
        match driver.peek_key() {
            None => {
                proof {
                    lemma_onward_none(all, at);
                    if at < 65536 {
                        lemma_and_skip(slots@, inputs, at, 65536);
                    }
                }
                return slots;
            },
            Some(key) => {
                proof {
                    lemma_onward(all, at, key);
                }
                let cr: ContainerRef = driver.get();
                proof {
                    lemma_first(driver.rest(), key, cr.key);
                }
                driver.advance();
                let mut refs: Vec<ContainerRef> = Vec::new();
                refs.push(cr);
                let ghost before = others@;
                let present: bool = gather_all(&mut others, key, &mut refs);
                proof {
                    assert forall|j: int| 0 <= j < n implies under((#[trigger] before[j]).rest(), key)
                        == under(inputs.set_at(order[j]), key) && tracks(
                        others@[j],
                        inputs.set_at(order[j]),
                        key + 1,
                    ) by {
                        lemma_tracks(before[j], inputs.set_at(order[j]), at, key);
                        lemma_tracks_on(before[j], others@[j], inputs.set_at(order[j]), at, key);
                    }
                    assert forall|j: int| 0 <= j < n implies tracks(
                        #[trigger] others@[j],
                        inputs.set_at(order[j]),
                        key + 1,
                    ) by {
                        assert(before[j].wf());
                    }
                    assert(in_all(inputs, key) == present) by {
                        if present {
                            assert forall|i: int| 0 <= i < inputs.count() implies under(
                                #[trigger] inputs.set_at(i),
                                key,
                            ).len() > 0 by {
                                if i != seed {
                                    assert(order.contains(i));
                                    let j = choose|j: int| 0 <= j < n && order[j] == i;
                                    assert(under(before[j].rest(), key).len() > 0);
                                }
                            }
                        } else {
                            let j = choose|j: int|
                                0 <= j < n && under((#[trigger] before[j]).rest(), key).len() == 0;
                            assert(under(inputs.set_at(order[j]), key).len() == 0);
                        }
                    }
                }
                if present {
                    let m: u32 = min_card(&refs);
                    let slot: SlotPlan = SlotPlan { key, capacity: shrink_cap(m) };
                    proof {
                        assert(refs@[0] == cr);
                        assert(is_least(inputs, key, m as int)) by {
                            let k = choose|k: int|
                                0 <= k < refs.len() && m == (#[trigger] refs@[k]).lows().len();
                            if k == 0 {
                                assert(m == under(inputs.set_at(seed as int), key).len());
                            } else {
                                assert(refs@[1 + (k - 1)].lows() == under(before[k - 1].rest(), key));
                                assert(m == under(inputs.set_at(order[k - 1]), key).len());
                            }
                            assert forall|i: int| 0 <= i < inputs.count() implies m <= under(
                                #[trigger] inputs.set_at(i),
                                key,
                            ).len() by {
                                if i == seed {
                                    assert(m <= refs@[0].lows().len());
                                } else {
                                    assert(order.contains(i));
                                    let j = choose|j: int| 0 <= j < n && order[j] == i;
                                    assert(refs@[1 + j].lows() == under(before[j].rest(), key));
                                }
                            }
                        }
                        assert(is_least(inputs, slot.key, m as int));
                        lemma_and_push(slots@, inputs, at, slot);
                    }
                    slots.push(slot);
                } else {
                    proof {
                        lemma_and_skip(slots@, inputs, at, key + 1);
                    }
                }
                proof {
                    at = key + 1;
                }
            },
        }
    }
}

/// Flat walk over all inputs, smallest key first.
fn plan_scan<I: Inputs + ?Sized>(inputs: &I) -> (r: Vec<SlotPlan>)
    requires
        inputs.ok(),
        inputs.count() > 0,
    ensures
        and_upto(r@, inputs, 65536),
{
    let mut slots: Vec<SlotPlan> = Vec::new();
    let mut cursors: Vec<ContainerCursor> = open_from(inputs, 0);
    let n: usize = cursors.len();
    let ghost mut at: int = 0;
    proof {
        assert forall|j: int| 0 <= j < n implies (#[trigger] cursors@[j]).wf() && cursors@[j].rest()
            == onward(inputs.set_at(j), 0) by {
            assert(onward(inputs.set_at(j), 0) =~= inputs.set_at(j));
        }
    }
    loop
        invariant
            inputs.ok(),
            n == inputs.count(),
            n > 0,
            cursors.len() == n,
            forall|j: int|
                0 <= j < n ==> (#[trigger] cursors@[j]).wf() && cursors@[j].rest() == onward(
                    inputs.set_at(j),
                    at,
                ),
            and_upto(slots@, inputs, at),
            0 <= at <= 65536,
        decreases 65536 - at,
    {
        match min_key(&cursors) {
            None => {
                proof {
                    assert(cursors@[0].rest() == Set::<u32>::empty());
                    lemma_onward_none(inputs.set_at(0), at);
                    lemma_not_in_all(inputs, 0);
                    if at < 65536 {
                        lemma_and_skip(slots@, inputs, at, 65536);
                    }
                }
                return slots;
            },
            Some(key) => {
                let ghost before = cursors@;
                proof {
                    let j = choose|j: int| 0 <= j < n && is_first((#[trigger] before[j]).rest(), key);
                    lemma_onward(inputs.set_at(j), at, key);
                    lemma_not_in_all(inputs, j);
                }
                let refs: Vec<ContainerRef> = gather_min(&mut cursors, key);
                proof {
                    assert forall|j: int| 0 <= j < n implies under((#[trigger] before[j]).rest(), key)
                        == under(inputs.set_at(j), key) by {
                        lemma_under_onward(inputs.set_at(j), at, key);
                    }
                    assert forall|j: int| 0 <= j < n implies (#[trigger] cursors@[j]).wf()
                        && cursors@[j].rest() == onward(inputs.set_at(j), key + 1) by {
                        assert(past(before[j].rest(), key) =~= onward(inputs.set_at(j), key + 1));
                    }
                }
                if refs.len() == n {
                    let m: u32 = min_card(&refs);
                    let slot: SlotPlan = SlotPlan { key, capacity: shrink_cap(m) };
                    proof {
                        assert forall|i: int| 0 <= i < inputs.count() implies under(
                            #[trigger] inputs.set_at(i),
                            key,
                        ).len() > 0 && m <= under(inputs.set_at(i), key).len() by {
                            assert(refs@[i].lows() == under(before[i].rest(), key));
                        }
                        assert(in_all(inputs, key));
                        let k = choose|k: int|
                            0 <= k < refs.len() && m == (#[trigger] refs@[k]).lows().len();
                        assert(refs@[k].lows() == under(before[k].rest(), key));
                        assert(m == under(inputs.set_at(k), key).len());
                        assert(is_least(inputs, slot.key, m as int));
                        lemma_and_push(slots@, inputs, at, slot);
                    }
                    slots.push(slot);
                } else {
                    proof {
                        let j = choose|j: int|
                            0 <= j < n && under((#[trigger] before[j]).rest(), key).len() == 0;
                        assert(under(inputs.set_at(j), key).len() == 0);
                        assert(!in_all(inputs, key));
                        lemma_and_skip(slots@, inputs, at, key + 1);
                    }
                }
                proof {
                    at = key + 1;
                }
            },
        }
    }
}

/// AND: the output keys are those of every input, and under each the result is a subset
/// of the smallest input there, so its slot holds what that input can shrink to.
///
/// Where some input is narrower, or there are two, the narrowest drives and the others
/// are skipped to its keys; otherwise all are scanned together.
#[verifier::rlimit(40)]
pub fn plan_intersect<I: Inputs + ?Sized>(inputs: &I) -> (r: Plan)
    requires
        inputs.ok(),
    ensures
        r.wf(),
        r.op == Op::Intersect,
        !r.double,
        r.scratch_bytes == 16384,
        forall|s: int| 0 <= s < r.slots@.len() ==> and_slot(#[trigger] r.slots@[s], inputs),
        forall|key: u16| #[trigger]
            in_all(inputs, key) ==> has_slot(r.slots@, key),
        fits_and(r.slots@, inputs),
{
    let n: usize = inputs.len();
    if n == 0 {
        return Plan { op: Op::Intersect, slots: Vec::new(), scratch_bytes: SCRATCH_BYTES, double: false };
    }
    let seed: usize = fewest(inputs);
    let min_n: usize = inputs.container_count(seed);
    let mut max_n: usize = 0;
    let mut i: usize = 0;
    while i < n
        invariant
            inputs.ok(),
            n == inputs.count(),
            i <= n,
        decreases n - i,
    {
        let w: usize = inputs.container_count(i);
        if w > max_n {
            max_n = w;
        }
        i = i + 1;
    }
    let slots: Vec<SlotPlan> = if n == 2 || min_n < max_n {
        plan_driven(inputs, seed)
    } else {
        plan_scan(inputs)
    };
    proof {
        lemma_and_fits(slots@, inputs);
    }
    Plan { op: Op::Intersect, slots, scratch_bytes: SCRATCH_BYTES, double: false }
}

/// One more container.
pub proof fn lemma_refs_any_next(refs: Seq<ContainerRef>, i: int)
    requires
        0 <= i < refs.len(),
    ensures
        refs_any(refs.take(i + 1)) == refs_any(refs.take(i)).union(refs[i].lows()),
{
    let (a, b) = (refs.take(i), refs.take(i + 1));
    assert forall|l: u16| refs_any(b).contains(l) == (refs_any(a).contains(l)
        || refs[i].lows().contains(l)) by {
        if refs_any(b).contains(l) {
            let k = choose|k: int| 0 <= k < b.len() && (#[trigger] b[k]).lows().contains(l);
            if k < i {
                assert(a[k] == b[k]);
            }
        }
        if refs_any(a).contains(l) {
            let k = choose|k: int| 0 <= k < a.len() && (#[trigger] a[k]).lows().contains(l);
            assert(b[k] == a[k]);
        }
        if refs[i].lows().contains(l) {
            assert(b[i] == refs[i]);
        }
    }
    assert(refs_any(b) =~= refs_any(a).union(refs[i].lows()));
}

/// The statistics of no container.
pub open spec fn no_stats() -> UnionKey {
    UnionKey {
        sum_card: 0,
        total_runs: 0,
        any_bitmap: false,
        all_run: true,
        max_single: 0,
        n: 0,
    }
}

/// The statistics with one more container, of form `typ`, `card` values and `stored` bytes.
pub open spec fn with_stats(k: UnionKey, typ: u8, card: int, stored: int) -> UnionKey {
    let runs = if typ == CT_RUN {
        (stored - 2) / 4
    } else {
        0
    };
    UnionKey {
        sum_card: if k.sum_card + card <= u32::MAX {
            (k.sum_card + card) as u32
        } else {
            u32::MAX
        },
        total_runs: if k.total_runs + runs <= usize::MAX {
            (k.total_runs + runs) as usize
        } else {
            usize::MAX
        },
        any_bitmap: k.any_bitmap || typ == CT_BITMAP,
        all_run: k.all_run && typ == CT_RUN,
        max_single: if stored > k.max_single {
            stored as u32
        } else {
            k.max_single
        },
        n: (k.n + 1) as usize,
    }
}

/// The statistics of the first `n` containers.
pub open spec fn refs_stats(refs: Seq<ContainerRef>, n: int) -> UnionKey
    decreases n,
{
    if n <= 0 {
        no_stats()
    } else {
        let r = refs[n - 1];
        with_stats(refs_stats(refs, n - 1), r.typ, r.card as int, r.stored())
    }
}

/// The statistics of what the first `n` inputs have under `key`.
pub open spec fn or_stats<I: Inputs + ?Sized>(inputs: &I, key: u16, n: int) -> UnionKey
    decreases n,
{
    if n <= 0 {
        no_stats()
    } else {
        let k = or_stats(inputs, key, n - 1);
        let card = under(inputs.set_at(n - 1), key).len() as int;
        if card == 0 {
            k
        } else {
            with_stats(k, inputs.form_at(n - 1, key), card, inputs.stored_at(n - 1, key))
        }
    }
}

/// Capacity of an OR slot.
pub open spec fn or_slot_cap<I: Inputs + ?Sized>(inputs: &I, key: u16) -> int {
    union_cap(or_stats(inputs, key, inputs.count() as int), Fanin::Flat)
}

proof fn lemma_stats_prefix(a: Seq<ContainerRef>, b: Seq<ContainerRef>, n: int)
    requires
        n <= a.len(),
        n <= b.len(),
        forall|i: int| 0 <= i < n ==> a[i] == b[i],
    ensures
        refs_stats(a, n) == refs_stats(b, n),
    decreases n,
{
    if n > 0 {
        lemma_stats_prefix(a, b, n - 1);
    }
}

/// The containers that cursors over the inputs have under a key have the statistics of the
/// inputs there.
#[verifier::rlimit(40)]
pub proof fn lemma_stats<I: Inputs + ?Sized>(
    inputs: &I,
    s: Seq<ContainerCursor>,
    n: int,
    key: u16,
    refs: Seq<ContainerRef>,
)
    requires
        0 <= n <= s.len(),
        lined_up(s, n, key, refs),
        refs_ok(refs),
        forall|j: int|
            0 <= j < n ==> under((#[trigger] s[j]).rest(), key) == under(inputs.set_at(j), key)
                && sourced(s[j], inputs, j),
    ensures
        refs_stats(refs, refs.len() as int) == or_stats(inputs, key, n),
    decreases n,
{
    if n > 0 {
        assert(under(s[n - 1].rest(), key) == under(inputs.set_at(n - 1), key));
        if under(s[n - 1].rest(), key).len() == 0 {
            lemma_stats(inputs, s, n - 1, key, refs);
        } else {
            let t = refs.drop_last();
            let m = refs.len() as int;
            assert forall|i: int| 0 <= i < t.len() implies (#[trigger] t[i]).wf() && t[i].card
                == t[i].lows().len() by {
                assert(t[i] == refs[i]);
            }
            lemma_stats(inputs, s, n - 1, key, t);
            lemma_stats_prefix(refs, t, m - 1);
            assert(refs[m - 1] == refs.last());
            assert(s[n - 1].stored(key) == inputs.stored_at(n - 1, key));
            assert(s[n - 1].form(key) == inputs.form_at(n - 1, key));
        }
    }
}

/// The statistics tell whether there are only runs, and how many.
pub proof fn lemma_stats_runs(refs: Seq<ContainerRef>, n: int)
    requires
        refs_ok(refs),
        0 <= n <= refs.len(),
    ensures
        refs_stats(refs, n).all_run <==> forall|i: int|
            0 <= i < n ==> (#[trigger] refs[i]).typ == CT_RUN,
        refs_stats(refs, n).all_run && weights(refs, n) <= usize::MAX ==> refs_stats(
            refs,
            n,
        ).total_runs == weights(refs, n),
        refs_stats(refs, n).all_run && weights(refs, n) > usize::MAX ==> refs_stats(
            refs,
            n,
        ).total_runs == usize::MAX,
        weights(refs, n) >= 0,
    decreases n,
{
    if n > 0 {
        lemma_stats_runs(refs, n - 1);
        assert(refs[n - 1].wf());
    }
}

/// There are no statistics under a key that no input has.
pub proof fn lemma_no_stats<I: Inputs + ?Sized>(inputs: &I, key: u16, n: int)
    requires
        forall|i: int| 0 <= i < n ==> under(#[trigger] inputs.set_at(i), key).len() == 0,
    ensures
        or_stats(inputs, key, n) == no_stats(),
    decreases n,
{
    if n > 0 {
        lemma_no_stats(inputs, key, n - 1);
        assert(under(inputs.set_at(n - 1), key).len() == 0);
    }
}

/// Merged statistics of the containers at one key.
fn union_stats(refs: &Vec<ContainerRef>) -> (r: UnionKey)
    requires
        refs_ok(refs@),
    ensures
        r == refs_stats(refs@, refs.len() as int),
        refs_any(refs@).len() <= r.sum_card,
        r.max_single <= BITMAP_BYTES,
{
    let mut k: UnionKey = UnionKey {
        sum_card: 0,
        total_runs: 0,
        any_bitmap: false,
        all_run: true,
        max_single: 0,
        n: 0,
    };
    let mut i: usize = 0;
    proof {
        lemma_set16(refs_any(refs@.take(0)));
        assert(refs_any(refs@.take(0)) =~= Set::<u16>::empty());
    }
    while i < refs.len()
        invariant
            refs_ok(refs@),
            i <= refs.len(),
            refs_any(refs@.take(i as int)).len() <= k.sum_card,
            k == refs_stats(refs@, i as int),
            k.n == i,
            k.max_single <= BITMAP_BYTES,
        decreases refs.len() - i,
    {
        let cr: ContainerRef = refs[i];
        assert(refs@[i as int].wf());
        proof {
            lemma_refs_any_next(refs@, i as int);
            lemma_set16(refs_any(refs@.take(i as int)));
            lemma_set16(refs_any(refs@.take(i + 1)));
            lemma_set16(cr.lows());
            vstd::set_lib::lemma_len_union(refs_any(refs@.take(i as int)), cr.lows());
        }
        k.sum_card = k.sum_card.saturating_add(cr.card);
        k.total_runs = k.total_runs.saturating_add(cr.num_runs());
        k.any_bitmap = k.any_bitmap || cr.typ == CT_BITMAP;
        k.all_run = k.all_run && cr.typ == CT_RUN;
        let stored: u32 = cr.stored_bytes() as u32;
        if stored > k.max_single {
            k.max_single = stored;
        }
        k.n = k.n + 1;
        assert(refs@[i as int] == cr);
        i = i + 1;
    }
    assert(refs@.take(i as int) =~= refs@);
    k
}

/// Partner-major folds pay off while the whole accumulator set stays cache-resident.
pub const PARTNER_MAJOR_MAX_ACC_BYTES: usize = 65536;

/// Bytes of the slots in all.
pub open spec fn slots_bytes(s: Seq<SlotPlan>) -> int
    decreases s.len(),
{
    if s.len() == 0 {
        0
    } else {
        slots_bytes(s.drop_last()) + s.last().capacity
    }
}

proof fn lemma_slots_bytes(s: Seq<SlotPlan>, k: int)
    requires
        0 <= k <= s.len(),
    ensures
        slots_bytes(s.take(k)) <= slots_bytes(s),
    decreases s.len(),
{
    if k == s.len() {
        assert(s.take(k) =~= s);
    } else {
        lemma_slots_bytes(s.drop_last(), k);
        assert(s.drop_last().take(k) =~= s.take(k));
    }
}

/// Whether `op` should fold partner-major over these slots, and so wants the mirror
/// region.
pub fn wants_partner_major(op: Op, slots: &[SlotPlan]) -> (r: bool)
    ensures
        r == (op != Op::Intersect && slots_bytes(slots@) <= 65536),
{
    match op {
        Op::Intersect => {
            return false;
        },
        _ => {},
    }
    let mut sum: usize = 0;
    let mut i: usize = 0;
    assert(slots@.take(0) =~= Seq::<SlotPlan>::empty());
    while i < slots.len()
        invariant
            op != Op::Intersect,
            i <= slots.len(),
            sum == slots_bytes(slots@.take(i as int)),
            sum <= PARTNER_MAJOR_MAX_ACC_BYTES,
        decreases slots.len() - i,
    {
        let c: u32 = slots[i].capacity;
        proof {
            let t = slots@.take(i + 1);
            assert(t.drop_last() =~= slots@.take(i as int));
            assert(t.last() == slots@[i as int]);
            lemma_slots_bytes(slots@, i + 1);
        }
        if c as usize > PARTNER_MAJOR_MAX_ACC_BYTES - sum {
            return false;
        }
        sum = sum + c as usize;
        i = i + 1;
    }
    assert(slots@.take(i as int) =~= slots@);
    true
}

/// Bytes a result container of `card` values takes in op-ready form.
pub fn fast_container_bytes(card: u32) -> (r: usize)
    ensures
        r == shrink_cap_spec(card as int),
{
    shrink_cap(card) as usize
}

/// The union under a key, from the inputs.
pub proof fn lemma_union_under<I: Inputs + ?Sized>(inputs: &I, key: u16, l: u16)
    ensures
        under(union_of(inputs), key).contains(l) <==> exists|i: int|
            0 <= i < inputs.count() && under(#[trigger] inputs.set_at(i), key).contains(l),
{
    let u = under(union_of(inputs), key);
    if u.contains(l) {
        let i = choose|i: int|
            0 <= i < inputs.count() && (#[trigger] inputs.set_at(i)).contains(join(key, l));
        assert(under(inputs.set_at(i), key).contains(l));
    }
    if exists|i: int| 0 <= i < inputs.count() && under(#[trigger] inputs.set_at(i), key).contains(l) {
        let i = choose|i: int|
            0 <= i < inputs.count() && under(#[trigger] inputs.set_at(i), key).contains(l);
        assert(inputs.set_at(i).contains(join(key, l)));
    }
}

/// The slots pushed so far are those of an OR under the keys before `at`.
spec fn or_upto<I: Inputs + ?Sized>(slots: Seq<SlotPlan>, inputs: &I, at: int) -> bool {
    &&& below(slots, at)
    &&& forall|s: int|
        0 <= s < slots.len() ==> in_any(inputs, (#[trigger] slots[s]).key) && or_room(
            slots[s].capacity as int,
            inputs,
            slots[s].key,
        ) && slots[s].capacity == or_slot_cap(inputs, slots[s].key)
    &&& forall|key: u16| #[trigger] in_any(inputs, key) && key < at ==> has_slot(slots, key)
}

proof fn lemma_or_push<I: Inputs + ?Sized>(slots: Seq<SlotPlan>, inputs: &I, at: int, p: SlotPlan)
    requires
        or_upto(slots, inputs, at),
        at <= p.key,
        p.capacity <= BITMAP_BYTES,
        forall|k: u16| at <= k < p.key ==> !(#[trigger] in_any(inputs, k)),
        in_any(inputs, p.key),
        or_room(p.capacity as int, inputs, p.key),
        p.capacity == or_slot_cap(inputs, p.key),
    ensures
        or_upto(slots.push(p), inputs, p.key + 1),
{
    lemma_push_slot(slots, at, p);
    let t = slots.push(p);
    assert forall|key: u16| #[trigger] in_any(inputs, key) && key < p.key + 1 implies has_slot(t, key) by {
        if key < at {
            let s = choose|s: int| #[trigger] planned(slots, s, key);
            assert(planned(t, s, key));
        } else {
            assert(planned(t, slots.len() as int, key));
        }
    }
}

/// Cursors over all inputs, each with everything from block `at` on still to come.
pub open spec fn walking<I: Inputs + ?Sized>(inputs: &I, s: Seq<ContainerCursor>, at: int) -> bool {
    &&& s.len() == inputs.count()
    &&& forall|j: int|
        0 <= j < s.len() ==> (#[trigger] s[j]).wf() && s[j].rest() == onward(inputs.set_at(j), at)
            && sourced(s[j], inputs, j)
}

/// The smallest key still to come is the next key of the union.
pub proof fn lemma_walk_key<I: Inputs + ?Sized>(inputs: &I, s: Seq<ContainerCursor>, at: int, key: u16)
    requires
        walking(inputs, s, at),
        exists|j: int| 0 <= j < s.len() && is_first((#[trigger] s[j]).rest(), key),
        forall|j: int, v: u32|
            0 <= j < s.len() && #[trigger] s[j].rest().contains(v) ==> hi(v) >= key,
    ensures
        at <= key,
        in_any(inputs, key),
        forall|k: u16| at <= k < key ==> !(#[trigger] in_any(inputs, k)),
        forall|j: int|
            0 <= j < s.len() ==> under((#[trigger] s[j]).rest(), key) == under(inputs.set_at(j), key),
{
    let j = choose|j: int| 0 <= j < s.len() && is_first((#[trigger] s[j]).rest(), key);
    lemma_onward(inputs.set_at(j), at, key);
    lemma_under_some(inputs.set_at(j), key);
    let v = choose|v: u32| #[trigger] inputs.set_at(j).contains(v) && hi(v) == key;
    assert(inputs.set_at(j).contains(v));
    assert(union_of(inputs).contains(v));
    lemma_under_some(union_of(inputs), key);
    assert forall|k: u16| at <= k < key implies !(#[trigger] in_any(inputs, k)) by {
        lemma_under_some(union_of(inputs), k);
        if in_any(inputs, k) {
            let u = choose|u: u32| #[trigger] union_of(inputs).contains(u) && hi(u) == k;
            assert(union_of(inputs).contains(u));
            let i = choose|i: int| 0 <= i < inputs.count() && (#[trigger] inputs.set_at(i)).contains(u);
            assert(s[i].rest().contains(u));
        }
    }
    assert forall|j: int| 0 <= j < s.len() implies under((#[trigger] s[j]).rest(), key) == under(
        inputs.set_at(j),
        key,
    ) by {
        lemma_under_onward(inputs.set_at(j), at, key);
    }
}

/// What the cursors had under a key is the union there.
pub proof fn lemma_walk_any<I: Inputs + ?Sized>(
    inputs: &I,
    s: Seq<ContainerCursor>,
    key: u16,
    refs: Seq<ContainerRef>,
)
    requires
        s.len() == inputs.count(),
        gathered(s, s.len() as int, key, refs),
        forall|j: int|
            0 <= j < s.len() ==> under((#[trigger] s[j]).rest(), key) == under(inputs.set_at(j), key),
    ensures
        refs_any(refs) == under(union_of(inputs), key),
{
    assert forall|l: u16| refs_any(refs).contains(l) == under(union_of(inputs), key).contains(l) by {
        lemma_union_under(inputs, key, l);
        if refs_any(refs).contains(l) {
            let j = choose|j: int| 0 <= j < s.len() && under((#[trigger] s[j]).rest(), key).contains(l);
            assert(under(inputs.set_at(j), key).contains(l));
        }
        if under(union_of(inputs), key).contains(l) {
            let i = choose|i: int|
                0 <= i < inputs.count() && under(#[trigger] inputs.set_at(i), key).contains(l);
            assert(under(s[i].rest(), key).contains(l));
        }
    }
    assert(refs_any(refs) =~= under(union_of(inputs), key));
}

/// Nothing is left of the union.
pub proof fn lemma_walk_end<I: Inputs + ?Sized>(inputs: &I, s: Seq<ContainerCursor>, at: int)
    requires
        walking(inputs, s, at),
        forall|j: int| 0 <= j < s.len() ==> (#[trigger] s[j]).rest() == Set::<u32>::empty(),
    ensures
        onward(union_of(inputs), at) == Set::<u32>::empty(),
        forall|k: u16| at <= k ==> !(#[trigger] in_any(inputs, k)),
{
    let u = union_of(inputs);
    assert forall|v: u32| !onward(u, at).contains(v) by {
        if onward(u, at).contains(v) {
            let i = choose|i: int| 0 <= i < inputs.count() && (#[trigger] inputs.set_at(i)).contains(v);
            assert(s[i].rest().contains(v));
        }
    }
    assert(onward(u, at) =~= Set::<u32>::empty());
    lemma_onward_none(u, at);
}

/// OR: the output keys are those of any input, and every one gets a slot that holds the
/// union's op-ready form: a bitmap where one is needed, else the largest of the merged
/// array, the coalesced runs and a lone copy.
#[verifier::rlimit(40)]
pub fn plan_union<I: Inputs + ?Sized>(inputs: &I) -> (r: Plan)
    requires
        inputs.ok(),
    ensures
        r.wf(),
        r.op == Op::Union,
        r.scratch_bytes == 16384,
        r.double == (inputs.count() > 0 && slots_bytes(r.slots@) <= 65536),
        forall|s: int|
            0 <= s < r.slots@.len() ==> in_any(inputs, (#[trigger] r.slots@[s]).key)
                && r.slots@[s].capacity == or_slot_cap(inputs, r.slots@[s].key),
        forall|key: u16| #[trigger] in_any(inputs, key) ==> has_slot(r.slots@, key),
        fits_or(r.slots@, inputs),
{
    let n: usize = inputs.len();
    let mut slots: Vec<SlotPlan> = Vec::new();
    let mut cursors: Vec<ContainerCursor> = open_from(inputs, 0);
    let ghost mut at: int = 0;
    proof {
        assert forall|j: int| 0 <= j < n implies (#[trigger] cursors@[j]).wf() && cursors@[j].rest()
            == onward(inputs.set_at(j), 0) && sourced(cursors@[j], inputs, j) by {
            assert(onward(inputs.set_at(j), 0) =~= inputs.set_at(j));
        }
    }
    loop
        invariant
            inputs.ok(),
            n == inputs.count(),
            walking(inputs, cursors@, at),
            or_upto(slots@, inputs, at),
            0 <= at <= 65536,
        ensures
            forall|k: u16| at <= k ==> !(#[trigger] in_any(inputs, k)),
        decreases 65536 - at,
    {
        match min_key(&cursors) {
            None => {
                proof {
                    lemma_walk_end(inputs, cursors@, at);
                }
                break;
            },
            Some(key) => {
                let ghost before = cursors@;
                proof {
                    lemma_walk_key(inputs, before, at, key);
                }
                let refs: Vec<ContainerRef> = gather_min(&mut cursors, key);
                proof {
                    lemma_walk_any(inputs, before, key, refs@);
                    assert forall|j: int| 0 <= j < n implies (#[trigger] cursors@[j]).wf()
                        && cursors@[j].rest() == onward(inputs.set_at(j), key + 1) && sourced(
                        cursors@[j],
                        inputs,
                        j,
                    ) by {
                        assert(past(before[j].rest(), key) =~= onward(inputs.set_at(j), key + 1));
                        assert(before[j].wf());
                        lemma_sourced(before[j], cursors@[j], inputs, j);
                    }
                    assert forall|j: int| 0 <= j < n implies under((#[trigger] before[j]).rest(), key)
                        == under(inputs.set_at(j), key) && sourced(before[j], inputs, j) by {
                        assert(before[j].wf());
                    }
                    lemma_stats(inputs, before, n as int, key, refs@);
                }
                let k: UnionKey = union_stats(&refs);
                let slot: SlotPlan = SlotPlan { key, capacity: union_key(&k, Fanin::Flat).cap };
                proof {
                    lemma_or_push(slots@, inputs, at, slot);
                    at = key + 1;
                }
                slots.push(slot);
            },
        }
    }
    proof {
        assert forall|key: u16| #[trigger] in_any(inputs, key) implies has_slot(slots@, key) by {
            assert(key < at);
        }
        assert forall|key: u16| #[trigger] in_any(inputs, key) implies exists|s: int| #[trigger]
            planned(slots@, s, key) && or_room(slots@[s].capacity as int, inputs, key) by {
            let s = choose|s: int| #[trigger] planned(slots@, s, key);
            assert(planned(slots@, s, key));
            assert(slots@[s].key == key);
        }
    }
    let double: bool = n > 0 && wants_partner_major(Op::Union, slots.as_slice());
    Plan { op: Op::Union, slots, scratch_bytes: SCRATCH_BYTES, double }
}

/// Capacity of a DIFF slot: what the first input's container shrinks to where a
/// subtrahend touches it, else what it occupies as it is.
pub open spec fn diff_slot_cap<I: Inputs + ?Sized>(inputs: &I, key: u16) -> int {
    if touched(inputs, key) {
        shrink_cap_spec(under(inputs.set_at(0), key).len() as int)
    } else {
        inputs.stored_at(0, key)
    }
}

/// The slots pushed so far are those of a DIFF under the keys before `at`.
spec fn diff_upto<I: Inputs + ?Sized>(slots: Seq<SlotPlan>, inputs: &I, at: int) -> bool {
    &&& below(slots, at)
    &&& forall|s: int|
        0 <= s < slots.len() ==> in_lhs(inputs, (#[trigger] slots[s]).key) && slots[s].capacity
            == diff_slot_cap(inputs, slots[s].key)
    &&& forall|key: u16| #[trigger] in_lhs(inputs, key) && key < at ==> has_slot(slots, key)
}

proof fn lemma_diff_push<I: Inputs + ?Sized>(slots: Seq<SlotPlan>, inputs: &I, at: int, p: SlotPlan)
    requires
        diff_upto(slots, inputs, at),
        at <= p.key,
        p.capacity <= BITMAP_BYTES,
        forall|k: u16| at <= k < p.key ==> !(#[trigger] in_lhs(inputs, k)),
        in_lhs(inputs, p.key),
        p.capacity == diff_slot_cap(inputs, p.key),
    ensures
        diff_upto(slots.push(p), inputs, p.key + 1),
{
    lemma_push_slot(slots, at, p);
    let t = slots.push(p);
    assert forall|key: u16| #[trigger] in_lhs(inputs, key) && key < p.key + 1 implies has_slot(t, key) by {
        if key < at {
            let s = choose|s: int| #[trigger] planned(slots, s, key);
            assert(planned(t, s, key));
        } else {
            assert(planned(t, slots.len() as int, key));
        }
    }
}

/// DIFF: the output keys are the first input's. A key that no subtrahend touches is
/// copied as it is; the others can only shrink.
#[verifier::rlimit(40)]
pub fn plan_diff<I: Inputs + ?Sized>(inputs: &I) -> (r: Plan)
    requires
        inputs.ok(),
    ensures
        r.wf(),
        r.op == Op::Diff,
        r.scratch_bytes == 16384,
        r.double == (inputs.count() > 0 && slots_bytes(r.slots@) <= 65536),
        forall|s: int|
            0 <= s < r.slots@.len() ==> in_lhs(inputs, (#[trigger] r.slots@[s]).key)
                && r.slots@[s].capacity == diff_slot_cap(inputs, r.slots@[s].key),
        forall|key: u16| #[trigger] in_lhs(inputs, key) ==> has_slot(r.slots@, key),
        fits_diff(r.slots@, inputs),
{
    let n: usize = inputs.len();
    if n == 0 {
        return Plan { op: Op::Diff, slots: Vec::new(), scratch_bytes: SCRATCH_BYTES, double: false };
    }
    let mut slots: Vec<SlotPlan> = Vec::new();
    let mut a: ContainerCursor = inputs.cursor(0);
    let ghost a0 = a;
    let mut rhs: Vec<ContainerCursor> = open_from(inputs, 1);
    let ghost all = inputs.set_at(0);
    let ghost mut at: int = 0;
    assert(onward(all, 0) =~= all);
    assert(a.same_source(a0)) by {
        a0.lemma_self();
    }
    loop
        invariant
            inputs.ok(),
            n == inputs.count(),
            n > 0,
            all == inputs.set_at(0),
            a.wf(),
            a.same_source(a0),
            forall|key: u16| #[trigger] a0.stored(key) == inputs.stored_at(0, key),
            a.rest() == onward(all, at),
            rhs.len() == n - 1,
            forall|j: int| 0 <= j < n - 1 ==> tracks(#[trigger] rhs@[j], inputs.set_at(j + 1), at),
            diff_upto(slots@, inputs, at),
        ensures
            forall|k: u16| at <= k ==> !(#[trigger] in_lhs(inputs, k)),
        decreases a.left(),
    {
        match a.peek_key() {
            None => {
                proof {
                    lemma_onward_none(all, at);
                }
                break;
            },
            Some(key) => {
                proof {
                    lemma_onward(all, at, key);
                    a.lemma_same_source(a0);
                }
                let cr: ContainerRef = a.get();
                proof {
                    lemma_first(a.rest(), key, cr.key);
                    assert(cr.stored() == a0.stored(key));
                }
                let ghost before = rhs@;
                let in_rhs: bool = any_under(&mut rhs, key);
                proof {
                    assert forall|j: int| 0 <= j < n - 1 implies under((#[trigger] before[j]).rest(), key)
                        == under(inputs.set_at(j + 1), key) by {
                        lemma_tracks(before[j], inputs.set_at(j + 1), at, key);
                    }
                    assert forall|j: int| 0 <= j < n - 1 implies tracks(
                        #[trigger] rhs@[j],
                        inputs.set_at(j + 1),
                        key + 1,
                    ) by {
                        assert(before[j].wf());
                        lemma_tracks_on(before[j], rhs@[j], inputs.set_at(j + 1), at, key);
                    }
                    assert(in_rhs == touched(inputs, key)) by {
                        if in_rhs {
                            let j = choose|j: int|
                                0 <= j < n - 1 && under((#[trigger] before[j]).rest(), key).len() > 0;
                            assert(under(inputs.set_at(j + 1), key).len() > 0);
                        }
                        if touched(inputs, key) {
                            let i = choose|i: int|
                                1 <= i < n && under(#[trigger] inputs.set_at(i), key).len() > 0;
                            assert(under(before[i - 1].rest(), key).len() > 0);
                        }
                    }
                }
                let capacity: u32 = diff_cap(cr.card, cr.stored_bytes() as u32, in_rhs);
                let slot: SlotPlan = SlotPlan { key, capacity };
                let ghost a1 = a;
                a.advance();
                proof {
                    a.lemma_chain(a1, a0);
                    lemma_diff_push(slots@, inputs, at, slot);
                    at = key + 1;
                }
                slots.push(slot);
            },
        }
    }
    proof {
        assert forall|key: u16| #[trigger] in_lhs(inputs, key) implies has_slot(slots@, key) by {
            assert(key < at);
        }
        assert forall|key: u16| #[trigger] in_lhs(inputs, key) implies exists|s: int| #[trigger]
            planned(slots@, s, key) && diff_room(slots@[s].capacity as int, inputs, key) by {
            let s = choose|s: int| #[trigger] planned(slots@, s, key);
            assert(planned(slots@, s, key));
            assert(slots@[s].key == key);
        }
    }
    let double: bool = wants_partner_major(Op::Diff, slots.as_slice());
    Plan { op: Op::Diff, slots, scratch_bytes: SCRATCH_BYTES, double }
}

} // verus!
