//! Key-major progress of a fold into an arena.
use vstd::prelude::*;

use crate::arena::{OpArena, CARD_LAZY};
use crate::format::{inline_magic, CT_BITMAP};
use crate::frozen::{std_blocks, std_entry, std_n};
use crate::model::{
    block_has, blocks_set, hi, join, lemma_set16, lemma_split, lemma_under_some, lo, under, upto,
    Block,
};
use crate::view::FrozenBitmapView;

verus! {

/// The arena holds `t` under the keys before `at`, and its slots for the keys from `at`
/// on are still to be claimed.
pub open spec fn folding(a: OpArena, t: Set<u32>, at: int) -> bool {
    &&& a.wf()
    &&& a.set() == upto(t, at)
    &&& a.last_slot() < a.next()
    &&& 0 <= a.next() <= a.n()
    &&& forall|i: int| 0 <= i < a.next() ==> #[trigger] a.key(i) < at
}

/// The arena has just been sized: nothing is claimed or recorded.
pub open spec fn fresh(a: OpArena) -> bool {
    &&& a.wf()
    &&& a.blocks() == Seq::<Block>::empty()
    &&& a.next() == 0
    &&& a.last_slot() == -1
    &&& forall|i: int| 0 <= i < a.n() ==> !(#[trigger] a.seeded(i))
}

/// A fold starts with nothing.
pub proof fn lemma_folding_start(a: OpArena, t: Set<u32>)
    requires
        fresh(a),
    ensures
        folding(a, t, 0),
{
    a.lemma_slots();
    assert(a.set() =~= upto(t, 0));
}

/// Keys under which `t` has nothing are passed over.
pub proof fn lemma_folding_skip(a: OpArena, t: Set<u32>, at: int, to: int)
    requires
        folding(a, t, at),
        at <= to,
        forall|k: u16| at <= k < to ==> #[trigger] under(t, k).len() == 0,
    ensures
        folding(a, t, to),
{
    assert forall|v: u32| upto(t, at).contains(v) == upto(t, to).contains(v) by {
        if t.contains(v) && at <= hi(v) < to {
            lemma_under_some(t, hi(v));
            assert(under(t, hi(v)).len() == 0);
        }
    }
    assert(upto(t, at) =~= upto(t, to));
}

/// The slot for `key` is still to be claimed.
pub proof fn lemma_unclaimed(a: OpArena, t: Set<u32>, at: int, key: u16, s: int)
    requires
        folding(a, t, at),
        at <= key,
        0 <= s < a.n(),
        a.key(s) == key,
    ensures
        a.next() <= s,
{
    if s < a.next() {
        assert(a.key(s) < at);
    }
}

/// The container of `key` was put into slot `i`.
pub proof fn lemma_folding_put(
    before: OpArena,
    after: OpArena,
    i: int,
    t: Set<u32>,
    at: int,
    key: u16,
    lows: Set<u16>,
)
    requires
        folding(before, t, at),
        after.wf(),
        after.same_slots(before),
        after.next() == i + 1,
        before.next() <= i < before.n(),
        before.key(i) == key,
        at <= key,
        forall|k: u16| at <= k < key ==> #[trigger] under(t, k).len() == 0,
        lows == under(t, key),
        lows.len() == 0 ==> after.blocks() == before.blocks() && after.last_slot()
            == before.last_slot(),
        lows.len() > 0 ==> after.blocks() == before.blocks().push(Block { key, lows })
            && after.last_slot() == i,
    ensures
        folding(after, t, key + 1),
{
    after.lemma_same_slots(before);
    before.lemma_slots();
    after.lemma_slots();
    lemma_folding_skip(before, t, at, key as int);
    assert forall|j: int| 0 <= j < after.next() implies #[trigger] after.key(j) < key + 1 by {
        if j < i {
            assert(before.key(j) < before.key(i));
        }
    }
    lemma_set16(lows);
    assert forall|v: u32| after.set().contains(v) == upto(t, key + 1).contains(v) by {
        lemma_split(v);
        assert(under(t, key).contains(lo(v)) == t.contains(join(key, lo(v))));
        if lows.len() == 0 {
            assert(lows =~= Set::<u16>::empty());
        } else {
            let (s, z) = (before.blocks(), after.blocks());
            let n = s.len() as int;
            if blocks_set(z).contains(v) {
                let j = choose|j: int| 0 <= j < z.len() && #[trigger] block_has(z, j, v);
                if j < n {
                    assert(block_has(s, j, v));
                    assert(blocks_set(s).contains(v));
                }
            }
            if blocks_set(s).contains(v) {
                let j = choose|j: int| 0 <= j < s.len() && #[trigger] block_has(s, j, v);
                assert(block_has(z, j, v));
            }
            if hi(v) == key && lows.contains(lo(v)) {
                assert(block_has(z, n, v));
            }
        }
        assert(before.set().contains(v) == upto(t, key as int).contains(v));
    }
    assert(after.set() =~= upto(t, key + 1));
}

/// The count of slot `s` is known, but for a bitmap before the last pass.
pub open spec fn tallied(a: OpArena, s: int, is_last: bool) -> bool {
    a.st(s).card == (if a.form(s) == CT_BITMAP && !is_last {
        CARD_LAZY as nat
    } else {
        a.acc(s).len()
    })
}

/// Every recorded container has a form that `ok` allows under its key.
pub open spec fn formed(a: OpArena, ok: spec_fn(u16, u8) -> bool) -> bool {
    forall|i: int| 0 <= i < a.blocks().len() ==> ok((#[trigger] a.blocks()[i]).key, a.forms()[i])
}

/// The container of `key` was put, or nothing was.
pub proof fn lemma_formed_put(
    before: OpArena,
    after: OpArena,
    ok: spec_fn(u16, u8) -> bool,
    key: u16,
    lows: Set<u16>,
    typ: u8,
)
    requires
        formed(before, ok),
        lows.len() == 0 ==> after.blocks() == before.blocks() && after.forms() == before.forms(),
        lows.len() > 0 ==> after.blocks() == before.blocks().push(Block { key, lows })
            && after.forms() == before.forms().push(typ) && ok(key, typ),
    ensures
        formed(after, ok),
{
    assert forall|i: int| 0 <= i < after.blocks().len() implies ok(
        (#[trigger] after.blocks()[i]).key,
        after.forms()[i],
    ) by {
        if i < before.blocks().len() {
            assert(after.blocks()[i] == before.blocks()[i]);
            assert(after.forms()[i] == before.forms()[i]);
        }
    }
}

/// Every container of `b` has a form that `ok` allows under its key.
pub open spec fn forms_ok(b: Seq<u8>, ok: spec_fn(u16, u8) -> bool) -> bool {
    forall|i: int|
        0 <= i < std_n(b) ==> ok((#[trigger] std_entry(b, i)).key, std_entry(b, i).typ)
}

/// The forms of an arena are those of its fast form.
pub proof fn lemma_forms_fast(a: OpArena, b: Seq<u8>, ok: spec_fn(u16, u8) -> bool)
    requires
        formed(a, ok),
        a.stored_fast(b),
    ensures
        forms_ok(b, ok),
{
    assert(std_blocks(b).len() == a.blocks().len());
    assert forall|i: int| 0 <= i < std_n(b) implies ok(
        (#[trigger] std_entry(b, i)).key,
        std_entry(b, i).typ,
    ) by {
        assert(std_blocks(b)[i] == a.blocks()[i]);
        assert(a.forms()[i] == a.typ_at(i));
    }
}

/// Below these, the capacity walk costs more than the fold.
pub const TRIVIAL_MAX_BYTES: usize = 16384;

/// Keys of the driving input up to which a plan may be made without analysis.
pub const TRIVIAL_MAX_KEYS: usize = 32;

/// Bytes of the first `n` views.
pub open spec fn views_bytes(views: Seq<FrozenBitmapView>, n: int) -> int
    decreases n,
{
    if n <= 0 {
        0
    } else {
        views_bytes(views, n - 1) + views[n - 1].src().len()
    }
}

proof fn lemma_views_bytes(views: Seq<FrozenBitmapView>, i: int, n: int)
    requires
        0 <= i <= n,
    ensures
        views_bytes(views, i) <= views_bytes(views, n),
    decreases n - i,
{
    if i < n {
        lemma_views_bytes(views, i, n - 1);
    }
}

/// Tiny-input gate: AND and DIFF of so little skip the capacity analysis. The key bound
/// limits the arena of such a plan.
pub fn trivial(views: &[FrozenBitmapView], drive: usize) -> (r: bool)
    requires
        drive < views.len(),
    ensures
        r == ((inline_magic(views@[drive as int].src()) || std_n(views@[drive as int].src())
            <= 32) && views_bytes(views@, views.len() as int) <= 16384),
{
    if views[drive].num_containers() > TRIVIAL_MAX_KEYS {
        return false;
    }
    let n: usize = views.len();
    let mut sum: usize = 0;
    let mut i: usize = 0;
    while i < n
        invariant
            i <= n == views.len(),
            sum == views_bytes(views@, i as int),
            sum <= TRIVIAL_MAX_BYTES,
        decreases n - i,
    {
        let len: usize = views[i].as_bytes().len();
        proof {
            lemma_views_bytes(views@, i + 1, n as int);
        }
        if len > TRIVIAL_MAX_BYTES - sum {
            return false;
        }
        sum = sum + len;
        i = i + 1;
    }
    true
}

/// The values of `t` under the keys of the first `s` slots.
pub open spec fn in_slots(a: OpArena, t: Set<u32>, s: int) -> Set<u32> {
    Set::new(|v: u32| t.contains(v) && exists|i: int| 0 <= i < s && #[trigger] a.key(i) == hi(v))
}

/// The first `s` slots are recorded, and hold what `t` has under their keys.
pub open spec fn recorded(a: OpArena, t: Set<u32>, s: int) -> bool {
    &&& a.wf()
    &&& a.last_slot() < s
    &&& a.set() == in_slots(a, t, s)
}

/// Nothing is recorded at the start.
pub proof fn lemma_recorded_start(a: OpArena, t: Set<u32>)
    requires
        a.wf(),
        a.blocks() == Seq::<Block>::empty(),
        a.last_slot() == -1,
    ensures
        recorded(a, t, 0),
{
    assert(a.set() =~= in_slots(a, t, 0));
}

/// Slot `s` was recorded, or held nothing.
pub proof fn lemma_recorded_next(before: OpArena, after: OpArena, t: Set<u32>, s: int, lows: Set<u16>)
    requires
        recorded(before, t, s),
        0 <= s < before.n(),
        after.wf(),
        after.same_slots(before),
        lows == under(t, before.key(s)),
        lows.len() == 0 ==> after.blocks() == before.blocks() && after.last_slot()
            == before.last_slot(),
        lows.len() > 0 ==> after.blocks() == before.blocks().push(
            Block { key: before.key(s), lows },
        ) && after.last_slot() == s,
    ensures
        recorded(after, t, s + 1),
{
    after.lemma_same_slots(before);
    let key = before.key(s);
    lemma_set16(lows);
    assert forall|v: u32| after.set().contains(v) == in_slots(after, t, s + 1).contains(v) by {
        lemma_split(v);
        assert(under(t, key).contains(lo(v)) == t.contains(join(key, lo(v))));
        assert(after.key(s) == key);
        let (a, z) = (before.blocks(), after.blocks());
        assert(before.set().contains(v) == in_slots(before, t, s).contains(v));
        if in_slots(before, t, s).contains(v) {
            let i = choose|i: int| 0 <= i < s && #[trigger] before.key(i) == hi(v);
            assert(after.key(i) == hi(v));
        }
        if in_slots(after, t, s + 1).contains(v) {
            let i = choose|i: int| 0 <= i < s + 1 && #[trigger] after.key(i) == hi(v);
            assert(before.key(i) == hi(v));
        }
        if lows.len() == 0 {
            assert(lows =~= Set::<u16>::empty());
        } else {
            let n = a.len() as int;
            if blocks_set(z).contains(v) {
                let j = choose|j: int| 0 <= j < z.len() && #[trigger] block_has(z, j, v);
                if j < n {
                    assert(block_has(a, j, v));
                    assert(blocks_set(a).contains(v));
                }
            }
            if blocks_set(a).contains(v) {
                let j = choose|j: int| 0 <= j < a.len() && #[trigger] block_has(a, j, v);
                assert(block_has(z, j, v));
            }
            if hi(v) == key && lows.contains(lo(v)) {
                assert(block_has(z, n, v));
            }
        }
    }
    assert(after.set() =~= in_slots(after, t, s + 1));
}

/// Once every slot is recorded, so is all of `t`, if each of its keys has a slot.
pub proof fn lemma_recorded_end(a: OpArena, t: Set<u32>)
    requires
        recorded(a, t, a.n()),
        forall|k: u16| #[trigger] under(t, k).len() > 0 ==> exists|i: int|
            0 <= i < a.n() && #[trigger] a.key(i) == k,
    ensures
        a.set() == t,
{
    assert forall|v: u32| a.set().contains(v) == t.contains(v) by {
        if t.contains(v) {
            lemma_under_some(t, hi(v));
            assert(under(t, hi(v)).len() > 0);
        }
    }
    assert(a.set() =~= t);
}

/// The slot holds `lows`, or nothing if that is empty.
pub open spec fn slot_holds(a: OpArena, s: int, lows: Set<u16>) -> bool {
    if lows.len() == 0 {
        !a.seeded(s)
    } else {
        a.seeded(s) && a.acc(s) == lows
    }
}

} // verus!
