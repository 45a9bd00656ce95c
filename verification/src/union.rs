//! N-way union (OR).
use vstd::prelude::*;

use crate::accum::{
    all_runs, array_fold, fold_set, lemma_weights, lemma_weights_head, load_array, load_bitmap,
    or_into, or_into_count, run_fold, run_step, weight, weights, Merge,
};
use crate::arena::{OpArena, SlotState, CARD_LAZY};
use crate::arrays::array_union;
use crate::bitmap::FrozenBitmap;
use crate::buffer::{aligned_buf, buf_room, AlignedBuf};
use crate::builder::run_starts;
use crate::canon::{finished_standard, lemma_apart_count, lemma_canonical_standard};
use crate::container::{Bitmap, Data, Run};
use crate::cursor::{ContainerCursor, ContainerRef};
use crate::decide::UnionKey;
use crate::encode::encode_smallest;
use crate::fold::{
    folding, formed, forms_ok, fresh, lemma_folding_put, lemma_folding_start,
    lemma_formed_put, lemma_forms_fast, lemma_recorded_end,
    lemma_recorded_next, lemma_recorded_start, lemma_unclaimed, recorded, slot_holds, tallied,
};
use crate::format::{inline_magic, BITMAP_BYTES, CT_ARRAY, CT_BITMAP, CT_RUN, MAX_RUNS};
use crate::frozen::{slim, snug, tidy};
use crate::memory::{
    borrow_buf, folded_once, give_buf, given, result_buf, stored_once, swap_out, swapped, taken,
    Buffers,
};
use crate::model::{
    join, lemma_asc16_unique, lemma_lists_len, lemma_onward, lemma_onward_none, lemma_set16, onward,
    past, under,
};
use crate::plan::{
    fits_or, has_slot, in_any, lemma_no_stats, lemma_refs_any_next, lemma_stats, lemma_stats_runs,
    lemma_walk_any, lemma_walk_end, lemma_walk_key, no_stats, or_room, or_slot_cap, or_stats,
    plan_union, planned, refs_stats, slots_bytes, slots_ok, union_of, walking, Plan, SlotPlan,
    PARTNER_MAJOR_MAX_ACC_BYTES,
};
use crate::source::Inputs;
use crate::view::FrozenBitmapView;
use crate::walk::{
    gather_min, lemma_first, lemma_sourced, min_key, open_from, refs_any, refs_ok, sourced,
};
use crate::words::bits_set;
use vstd::slice::slice_subrange;

verus! {

proof fn lemma_head(refs: Seq<ContainerRef>)
    requires
        refs.len() > 0,
    ensures
        fold_set(refs[0].lows(), refs.skip(1), Merge::Or) == refs_any(refs),
{
    let rest = refs.skip(1);
    let s = refs[0].lows();
    assert forall|l: u16| fold_set(s, rest, Merge::Or).contains(l) == refs_any(refs).contains(l) by {
        if refs_any(rest).contains(l) {
            let i = choose|i: int| 0 <= i < rest.len() && (#[trigger] rest[i]).lows().contains(l);
            assert(refs[i + 1] == rest[i]);
        }
        if s.contains(l) {
            assert(refs[0].lows().contains(l));
        }
        if refs_any(refs).contains(l) {
            let i = choose|i: int| 0 <= i < refs.len() && (#[trigger] refs[i]).lows().contains(l);
            if i > 0 {
                assert(rest[i - 1] == refs[i]);
            }
        }
    }
    assert(fold_set(s, rest, Merge::Or) =~= refs_any(refs));
}

/// Runs in all, if they stay under the run ceiling.
fn run_total(refs: &[ContainerRef]) -> (r: Option<usize>)
    requires
        refs_ok(refs@),
        forall|i: int| 0 <= i < refs.len() ==> (#[trigger] refs@[i]).typ == CT_RUN,
    ensures
        r is Some <==> weights(refs@, refs.len() as int) <= MAX_RUNS,
        r matches Some(n) ==> n == weights(refs@, refs.len() as int),
{
    let mut total: usize = 0;
    let mut i: usize = 0;
    while i < refs.len()
        invariant
            refs_ok(refs@),
            i <= refs.len(),
            total == weights(refs@, i as int),
            total <= MAX_RUNS,
            forall|k: int| 0 <= k < refs.len() ==> (#[trigger] refs@[k]).typ == CT_RUN,
        decreases refs.len() - i,
    {
        assert(refs@[i as int].wf());
        total = total + refs[i].num_runs();
        if total > MAX_RUNS {
            proof {
                lemma_weights(refs@, i + 1, refs.len() as int);
            }
            return None;
        }
        i = i + 1;
    }
    Some(total)
}

/// A bitmap container, or the first: what a bitmap accumulator is seeded from.
fn bitmap_position(refs: &Vec<ContainerRef>) -> (r: usize)
    requires
        refs.len() > 0,
    ensures
        r < refs.len(),
        refs@[r as int].typ == CT_BITMAP || forall|i: int|
            0 <= i < refs.len() ==> (#[trigger] refs@[i]).typ != CT_BITMAP,
{
    let mut i: usize = 0;
    while i < refs.len()
        invariant
            i <= refs.len(),
            refs.len() > 0,
            forall|k: int| 0 <= k < i ==> (#[trigger] refs@[k]).typ != CT_BITMAP,
        decreases refs.len() - i,
    {
        if refs[i].typ == CT_BITMAP {
            return i;
        }
        i = i + 1;
    }
    0
}

/// The statistics count the containers.
proof fn lemma_stats_count(refs: Seq<ContainerRef>, n: int)
    requires
        0 <= n <= usize::MAX,
    ensures
        refs_stats(refs, n).n == n,
    decreases n,
{
    if n > 0 {
        lemma_stats_count(refs, n - 1);
    }
}

/// There are only runs, and they stay under the run ceiling.
pub open spec fn few_runs(k: UnionKey) -> bool {
    k.all_run && k.n > 0 && k.total_runs <= MAX_RUNS
}

/// The runs a run accumulator of the first `n` inputs has under `key`, folded one input after
/// the other: it starts as a copy of the first container there, coalesces with each that is
/// runs too, and is a bitmap from the first that is not, or that would pass the run ceiling.
pub open spec fn or_runs<I: Inputs + ?Sized>(inputs: &I, key: u16, n: int) -> Option<int>
    decreases n,
{
    if n <= 0 {
        None
    } else if under(inputs.set_at(n - 1), key).len() == 0 {
        or_runs(inputs, key, n - 1)
    } else if inputs.form_at(n - 1, key) != CT_RUN {
        None
    } else if or_stats(inputs, key, n - 1).n == 0 {
        Some((inputs.stored_at(n - 1, key) - 2) / 4)
    } else {
        match or_runs(inputs, key, n - 1) {
            Some(runs) => if runs + (inputs.stored_at(n - 1, key) - 2) / 4 <= MAX_RUNS {
                Some(run_starts(under(union_upto(inputs, n), key)).len() as int)
            } else {
                None
            },
            None => None,
        }
    }
}

/// The form of an OR under `key`, in a slot of `cap` bytes: an array in a slot smaller than a
/// bitmap, else runs where there is nothing else and they stay under the run ceiling, and a
/// bitmap otherwise. Folded partner-major (`double`), runs coalesce before they count.
pub open spec fn or_form<I: Inputs + ?Sized>(inputs: &I, key: u16, cap: int, double: bool) -> u8 {
    let n = inputs.count() as int;
    if cap < BITMAP_BYTES {
        CT_ARRAY
    } else if double && or_runs(inputs, key, n) is Some || !double && few_runs(
        or_stats(inputs, key, n),
    ) {
        CT_RUN
    } else {
        CT_BITMAP
    }
}

/// The forms of an OR of `inputs` in `slots`.
pub open spec fn or_forms_in<I: Inputs + ?Sized>(
    inputs: &I,
    slots: Seq<SlotPlan>,
    double: bool,
) -> spec_fn(u16, u8) -> bool {
    |key: u16, typ: u8|
        exists|s: int| #[trigger]
            planned(slots, s, key) && typ == or_form(
                inputs,
                key,
                slots[s].capacity as int,
                double,
            )
}

/// The slots of an OR of `inputs`: one for each key of any of them.
pub open spec fn or_slots<I: Inputs + ?Sized>(inputs: &I, slots: Seq<SlotPlan>) -> bool {
    &&& slots_ok(slots)
    &&& forall|s: int|
        0 <= s < slots.len() ==> in_any(inputs, (#[trigger] slots[s]).key) && slots[s].capacity
            == or_slot_cap(inputs, slots[s].key)
    &&& forall|key: u16| #[trigger] in_any(inputs, key) ==> has_slot(slots, key)
}

/// Whether an OR of `inputs` is folded partner-major: its slots stay cache-resident.
pub open spec fn or_double<I: Inputs + ?Sized>(inputs: &I) -> bool {
    exists|slots: Seq<SlotPlan>| #[trigger]
        or_slots(inputs, slots) && inputs.count() > 0 && slots_bytes(slots)
            <= PARTNER_MAJOR_MAX_ACC_BYTES
}

/// There is one list of slots.
proof fn lemma_or_slots<I: Inputs + ?Sized>(inputs: &I, a: Seq<SlotPlan>, b: Seq<SlotPlan>)
    requires
        or_slots(inputs, a),
        or_slots(inputs, b),
    ensures
        a == b,
{
    let (x, y) = (
        Seq::new(a.len(), |i: int| a[i].key),
        Seq::new(b.len(), |i: int| b[i].key),
    );
    assert forall|k: u16| x.contains(k) <==> y.contains(k) by {
        if x.contains(k) {
            let i = choose|i: int| 0 <= i < x.len() && x[i] == k;
            assert(in_any(inputs, a[i].key));
            let s = choose|s: int| #[trigger] planned(b, s, k);
            assert(y[s] == k);
        }
        if y.contains(k) {
            let i = choose|i: int| 0 <= i < y.len() && y[i] == k;
            assert(in_any(inputs, b[i].key));
            let s = choose|s: int| #[trigger] planned(a, s, k);
            assert(x[s] == k);
        }
    }
    lemma_asc16_unique(x, y);
    assert(a.len() == x.len() && b.len() == y.len());
    assert forall|i: int| 0 <= i < a.len() implies #[trigger] a[i] == b[i] by {
        assert(x[i] == y[i]);
        assert(a[i].key == b[i].key);
        assert(a[i].capacity == or_slot_cap(inputs, a[i].key));
        assert(b[i].capacity == or_slot_cap(inputs, b[i].key));
    }
    assert(a.len() == b.len());
    assert(a =~= b);
}

/// The forms of an OR of `inputs`.
pub open spec fn or_forms<I: Inputs + ?Sized>(inputs: &I) -> spec_fn(u16, u8) -> bool {
    |key: u16, typ: u8|
        typ == or_form(inputs, key, or_slot_cap(inputs, key), or_double(inputs))
}

/// OR at one key. The plan has decided the accumulator's form by the slot's capacity: a
/// bitmap-sized slot means a bitmap, or runs where every container has them.
#[verifier::rlimit(40)]
fn union_key(refs: &Vec<ContainerRef>, cap: usize) -> (r: Data)
    requires
        refs_ok(refs@),
        refs.len() > 0,
        cap <= BITMAP_BYTES,
        cap == BITMAP_BYTES || 2 * refs_any(refs@).len() <= cap,
    ensures
        r.wf(),
        r.set() == refs_any(refs@),
        r.spec_typ() == (if cap < BITMAP_BYTES {
            CT_ARRAY
        } else if few_runs(refs_stats(refs@, refs.len() as int)) {
            CT_RUN
        } else {
            CT_BITMAP
        }),
        r matches Data::Run(v) ==> v.len() <= MAX_RUNS,
        r.spec_bytes() <= cap,
{
    let n: usize = refs.len();
    let rest: &[ContainerRef] = slice_subrange(refs.as_slice(), 1, n);
    proof {
        lemma_head(refs@);
        lemma_stats_runs(refs@, n as int);
        lemma_stats_count(refs@, n as int);
        lemma_weights_head(refs@, n as int);
        assert(rest@ =~= refs@.skip(1));
        assert forall|i: int| 0 <= i < rest@.len() implies (#[trigger] rest@[i]).wf() && rest@[i].card
            == rest@[i].lows().len() && rest@[i].typ == refs@[i + 1].typ by {
            assert(refs@[i + 1] == rest@[i]);
        }
    }
    assert(refs@[0].wf());
    if cap >= BITMAP_BYTES && all_runs(refs.as_slice()) {
        match run_total(rest) {
            Some(total) => {
                if total + refs[0].num_runs() <= MAX_RUNS {
                    return run_fold(&refs[0], rest, Merge::Or);
                }
            },
            None => {},
        }
    }
    if cap >= BITMAP_BYTES {
        let seed: usize = bitmap_position(refs);
        assert(refs@[seed as int].wf());
        let mut acc: Box<Bitmap> = load_bitmap(refs[seed].typed());
        let ghost s = refs@[seed as int].lows();
        let mut j: usize = 0;
        assert(bits_set((*acc)@) =~= s.union(refs_any(refs@.take(0))));
        while j < n
            invariant
                j <= n,
                n == refs.len(),
                seed < n,
                refs_ok(refs@),
                s == refs@[seed as int].lows(),
                bits_set((*acc)@) == s.union(refs_any(refs@.take(j as int))),
            decreases n - j,
        {
            assert(refs@[j as int].wf());
            if j != seed {
                or_into(&mut *acc, &refs[j].typed());
            }
            proof {
                lemma_refs_any_next(refs@, j as int);
                assert(bits_set((*acc)@) =~= s.union(refs_any(refs@.take(j + 1))));
            }
            j = j + 1;
        }
        proof {
            assert(refs@.take(n as int) =~= refs@);
            assert forall|l: u16| s.contains(l) implies refs_any(refs@).contains(l) by {
                assert(refs@[seed as int].lows().contains(l));
            }
            assert(bits_set((*acc)@) =~= refs_any(refs@));
        }
        return Data::Bitmap(acc);
    }
    array_fold(&refs[0], rest, cap / 2, Merge::Or)
}

/// Key-major union.
#[verifier::rlimit(40)]
fn union_fold_keys<I: Inputs + ?Sized>(arena: &mut OpArena, inputs: &I)
    requires
        inputs.ok(),
        fresh(*old(arena)),
        fits_or(old(arena).slots(), inputs),
    ensures
        final(arena).wf(),
        final(arena).same_slots(*old(arena)),
        final(arena).set() == union_of(inputs),
        formed(*final(arena), or_forms_in(inputs, old(arena).slots(), false)),
{
    let ghost ok = or_forms_in(inputs, arena.slots(), false);
    let n: usize = inputs.len();
    let mut cursors: Vec<ContainerCursor> = open_from(inputs, 0);
    let ghost t = union_of(inputs);
    let ghost mut at: int = 0;
    proof {
        lemma_folding_start(*arena, t);
        arena.lemma_self();
        assert forall|j: int| 0 <= j < n implies (#[trigger] cursors@[j]).wf() && cursors@[j].rest()
            == onward(inputs.set_at(j), 0) && sourced(cursors@[j], inputs, j) by {
            assert(onward(inputs.set_at(j), 0) =~= inputs.set_at(j));
        }
    }
    loop
        invariant
            inputs.ok(),
            n == inputs.count(),
            t == union_of(inputs),
            walking(inputs, cursors@, at),
            arena.same_slots(*old(arena)),
            fits_or(old(arena).slots(), inputs),
            folding(*arena, t, at),
            ok == or_forms_in(inputs, old(arena).slots(), false),
            formed(*arena, ok),
            0 <= at <= 65536,
        decreases 65536 - at,
    {
        match min_key(&cursors) {
            None => {
                proof {
                    lemma_walk_end(inputs, cursors@, at);
                    lemma_onward_none(t, at);
                }
                return;
            },
            Some(key) => {
                let ghost before = cursors@;
                proof {
                    lemma_walk_key(inputs, before, at, key);
                    assert forall|k: u16| at <= k < key implies #[trigger] under(t, k).len() == 0 by {
                        assert(!in_any(inputs, k));
                    }
                    let s = choose|s: int| #[trigger]
                        planned(old(arena).slots(), s, key) && or_room(
                            old(arena).slots()[s].capacity as int,
                            inputs,
                            key,
                        );
                    arena.lemma_same_slots(*old(arena));
                    assert(planned(arena.slots(), s, key));
                    lemma_unclaimed(*arena, t, at, key, s);
                    assert(arena.next() <= s < arena.n() && arena.key(s) == key);
                }
                let refs: Vec<ContainerRef> = gather_min(&mut cursors, key);
                proof {
                    lemma_walk_any(inputs, before, key, refs@);
                    assert forall|j: int| 0 <= j < n implies under((#[trigger] before[j]).rest(), key)
                        == under(inputs.set_at(j), key) && sourced(before[j], inputs, j) by {
                        assert(before[j].wf());
                    }
                    lemma_stats(inputs, before, n as int, key, refs@);
                    lemma_stats_count(refs@, refs@.len() as int);
                    lemma_walk_on(inputs, before, cursors@, at, key);
                    if refs@.len() == 0 {
                        assert(refs_any(refs@) =~= Set::<u16>::empty());
                    }
                }
                let ghost a0 = *arena;
                let slot: usize = arena.claim_key(key);
                let ghost a1 = *arena;
                proof {
                    a1.lemma_same_slots(a0);
                    a0.lemma_slots();
                    lemma_or_slot(inputs, a0.slots(), slot as int, key);
                }
                let cap: usize = arena.slot_capacity(slot);
                let data: Data = union_key(&refs, cap);
                arena.put(slot, &data);
                proof {
                    arena.lemma_chain(a1, a0);
                    arena.lemma_chain(a0, *old(arena));
                    lemma_folding_put(a0, *arena, slot as int, t, at, key, data.set());
                    assert(planned(old(arena).slots(), slot as int, key));
                    assert(ok(key, data.spec_typ()));
                    lemma_formed_put(a0, *arena, ok, key, data.set(), data.spec_typ());
                    at = key + 1;
                }
            },
        }
    }
}

/// Every cursor has moved past the key.
proof fn lemma_walk_on<'a, I: Inputs + ?Sized>(
    inputs: &I,
    before: Seq<ContainerCursor<'a>>,
    after: Seq<ContainerCursor<'a>>,
    at: int,
    key: u16,
)
    requires
        walking(inputs, before, at),
        at <= key,
        after.len() == before.len(),
        forall|j: int|
            0 <= j < before.len() ==> (#[trigger] after[j]).wf() && after[j].rest() == past(
                before[j].rest(),
                key,
            ) && after[j].same_source(before[j]),
    ensures
        walking(inputs, after, key + 1),
{
    assert forall|j: int| 0 <= j < after.len() implies (#[trigger] after[j]).wf() && after[j].rest()
        == onward(inputs.set_at(j), key + 1) && sourced(after[j], inputs, j) by {
        assert(past(before[j].rest(), key) =~= onward(inputs.set_at(j), key + 1));
        assert(before[j].wf());
        lemma_sourced(before[j], after[j], inputs, j);
    }
}

/// The slot of a key of the union has room for it.
proof fn lemma_or_slot<I: Inputs + ?Sized>(inputs: &I, slots: Seq<SlotPlan>, slot: int, key: u16)
    requires
        slots_ok(slots),
        fits_or(slots, inputs),
        in_any(inputs, key),
        planned(slots, slot, key),
    ensures
        or_room(slots[slot].capacity as int, inputs, key),
{
    let s = choose|s: int| #[trigger]
        planned(slots, s, key) && or_room(slots[s].capacity as int, inputs, key);
    assert(s == slot) by {
        if s < slot {
            assert(slots[s].key < slots[slot].key);
        } else if slot < s {
            assert(slots[slot].key < slots[s].key);
        }
    }
}

// --- partner-major -------------------------------------------------------------------

/// The union of the first `j` inputs.
pub open spec fn union_upto<I: Inputs + ?Sized>(inputs: &I, j: int) -> Set<u32> {
    Set::new(|v: u32| exists|i: int| 0 <= i < j && (#[trigger] inputs.set_at(i)).contains(v))
}

/// An accumulator is an array exactly in a slot smaller than a bitmap.
spec fn form_ok(a: OpArena, s: int) -> bool {
    a.seeded(s) ==> (a.form(s) == CT_ARRAY <==> a.cap(s) < BITMAP_BYTES)
}

/// Form and runs of slot `s` after it took container `p`.
spec fn took(before: OpArena, after: OpArena, s: int, p: ContainerRef) -> bool {
    if before.cap(s) < BITMAP_BYTES {
        after.form(s) == CT_ARRAY
    } else if !before.seeded(s) {
        if p.typ == CT_RUN {
            after.form(s) == CT_RUN && after.st(s).runs == weight(p)
        } else {
            after.form(s) == CT_BITMAP
        }
    } else if before.form(s) == CT_RUN && p.typ == CT_RUN && before.st(s).runs + weight(p)
        <= MAX_RUNS {
        after.form(s) == CT_RUN && after.st(s).runs == run_starts(after.acc(s)).len()
    } else {
        after.form(s) == CT_BITMAP
    }
}

/// Seed slot `s` from its first container.
fn union_seed(arena: &mut OpArena, s: usize, p: &ContainerRef)
    requires
        old(arena).wf(),
        old(arena).last_slot() < s < old(arena).n(),
        p.wf(),
        old(arena).cap(s as int) == BITMAP_BYTES || 2 * p.lows().len() <= old(arena).cap(s as int),
    ensures
        final(arena).wf(),
        final(arena).same_but(*old(arena), s as int),
        final(arena).seeded(s as int),
        final(arena).acc(s as int) == p.lows(),
        final(arena).st(s as int).card == p.lows().len(),
        form_ok(*final(arena), s as int),
        !old(arena).seeded(s as int) ==> took(*old(arena), *final(arena), s as int, *p),
{
    proof {
        arena.lemma_slots();
    }
    let ghost a0 = *arena;
    if arena.slot_capacity(s) < BITMAP_BYTES {
        // The plan has shown this key's whole union array-sized.
        let v: Vec<u16> = load_array(&p.typed());
        arena.save(s, &Data::Array(v), p.card, false);
    } else if p.typ == CT_RUN {
        arena.save(s, &p.typed(), p.card, false);
    } else {
        let b: Box<Bitmap> = load_bitmap(p.typed());
        arena.save(s, &Data::Bitmap(b), p.card, false);
    }
    proof {
        arena.lemma_same_slots(a0);
    }
}

/// OR one more container into slot `s`'s accumulator: arrays merge to the other side,
/// runs coalesce there, bitmaps fold in place, their count left to the last pass.
#[verifier::rlimit(40)]
fn union_apply(arena: &mut OpArena, s: usize, p: &ContainerRef, is_last: bool)
    requires
        old(arena).wf(),
        old(arena).last_slot() < s < old(arena).n(),
        old(arena).double(),
        p.wf(),
        form_ok(*old(arena), s as int),
        !old(arena).seeded(s as int) ==> old(arena).cap(s as int) == BITMAP_BYTES || 2
            * p.lows().len() <= old(arena).cap(s as int),
        old(arena).seeded(s as int) ==> old(arena).cap(s as int) == BITMAP_BYTES || 2 * old(
            arena,
        ).acc(s as int).union(p.lows()).len() <= old(arena).cap(s as int),
    ensures
        final(arena).wf(),
        final(arena).same_but(*old(arena), s as int),
        final(arena).seeded(s as int),
        final(arena).acc(s as int) == (if old(arena).seeded(s as int) {
            old(arena).acc(s as int).union(p.lows())
        } else {
            p.lows()
        }),
        form_ok(*final(arena), s as int),
        took(*old(arena), *final(arena), s as int, *p),
        if old(arena).seeded(s as int) {
            tallied(*final(arena), s as int, is_last)
        } else {
            final(arena).st(s as int).card == p.lows().len()
        },
{
    let st: SlotState = arena.state(s);
    if !st.seeded() {
        union_seed(arena, s, p);
        return;
    }
    let ghost a0 = *arena;
    proof {
        arena.lemma_slots();
    }
    let cap: usize = arena.slot_capacity(s);
    let ghost u = a0.acc(s as int).union(p.lows());
    match arena.load(s) {
        Data::Array(cur) => {
            let b: Vec<u16> = load_array(&p.typed());
            let mut out: Vec<u16> = vec![0u16; cap / 2];
            let n: usize = array_union(cur.as_slice(), b.as_slice(), out.as_mut_slice());
            proof {
                lemma_lists_len(out@, n as int, u);
                lemma_set16(u);
            }
            out.truncate(n);
            let d: Data = Data::Array(out);
            proof {
                assert(d.set() == u);
            }
            arena.save(s, &d, n as u32, true);
        },
        Data::Run(cur) => {
            if p.typ == CT_RUN && cur.len() + p.num_runs() <= MAX_RUNS {
                let (runs, card): (Vec<Run>, u32) = run_step(&cur, &p.typed(), Merge::Or);
                proof {
                    lemma_apart_count(runs@);
                }
                arena.save(s, &Data::Run(runs), card, true);
            } else {
                let mut b: Box<Bitmap> = load_bitmap(Data::Run(cur));
                union_bitmap(arena, s, b, p, is_last, true);
            }
        },
        Data::Bitmap(cur) => {
            union_bitmap(arena, s, cur, p, is_last, false);
        },
        Data::Inline(_) => {},
    }
    proof {
        arena.lemma_same_slots(a0);
    }
}

/// OR one container into a bitmap accumulator.
fn union_bitmap(
    arena: &mut OpArena,
    s: usize,
    cur: Box<Bitmap>,
    p: &ContainerRef,
    is_last: bool,
    flip: bool,
)
    requires
        old(arena).wf(),
        old(arena).last_slot() < s < old(arena).n(),
        old(arena).double(),
        old(arena).cap(s as int) == BITMAP_BYTES,
        p.wf(),
    ensures
        final(arena).wf(),
        final(arena).same_but(*old(arena), s as int),
        final(arena).seeded(s as int),
        final(arena).acc(s as int) == bits_set((*cur)@).union(p.lows()),
        final(arena).form(s as int) == CT_BITMAP,
        tallied(*final(arena), s as int, is_last),
{
    let mut b: Box<Bitmap> = cur;
    let card: u32 = if is_last {
        or_into_count(&mut *b, &p.typed())
    } else {
        or_into(&mut *b, &p.typed());
        CARD_LAZY
    };
    let d: Data = Data::Bitmap(b);
    arena.save(s, &d, card, flip);
}

/// Slot `s` holds the union of the first `j` inputs under its key, or of one more if its
/// key lies before `at`.
spec fn held_at<I: Inputs + ?Sized>(a: OpArena, inputs: &I, j: int, at: int, s: int) -> bool {
    &&& slot_holds(
        a,
        s,
        under(
            union_upto(
                inputs,
                if a.key(s) < at {
                    j + 1
                } else {
                    j
                },
            ),
            a.key(s),
        ),
    )
    &&& form_ok(a, s)
    &&& a.seeded(s) ==> passing(
        inputs,
        a.key(s),
        if a.key(s) < at {
            j + 1
        } else {
            j
        },
        a.cap(s),
        a.form(s),
        a.st(s).runs as int,
    )
}

/// The form and runs of an accumulator of what the first `n` inputs have under `key`.
spec fn passing<I: Inputs + ?Sized>(
    inputs: &I,
    key: u16,
    n: int,
    cap: int,
    form: u8,
    runs: int,
) -> bool {
    &&& or_stats(inputs, key, n).n > 0
    &&& if cap < BITMAP_BYTES {
        form == CT_ARRAY
    } else {
        match or_runs(inputs, key, n) {
            Some(r) => form == CT_RUN && runs == r,
            None => form == CT_BITMAP,
        }
    }
}

/// Another container keeps the accumulator in form.
proof fn lemma_passing<I: Inputs + ?Sized>(
    before: OpArena,
    after: OpArena,
    s: int,
    p: ContainerRef,
    inputs: &I,
    key: u16,
    j: int,
)
    requires
        0 <= j,
        p.wf(),
        p.lows() == under(inputs.set_at(j), key),
        p.lows().len() > 0,
        p.typ == inputs.form_at(j, key),
        p.stored() == inputs.stored_at(j, key),
        after.acc(s) == under(union_upto(inputs, j + 1), key),
        or_stats(inputs, key, j).n < usize::MAX,
        took(before, after, s, p),
        after.cap(s) == before.cap(s),
        before.seeded(s) ==> passing(
            inputs,
            key,
            j,
            before.cap(s),
            before.form(s),
            before.st(s).runs as int,
        ),
        !before.seeded(s) ==> or_stats(inputs, key, j) == no_stats(),
        before.cap(s) <= BITMAP_BYTES,
    ensures
        passing(inputs, key, j + 1, after.cap(s), after.form(s), after.st(s).runs as int),
{
}

/// Every slot holds what the passes so far have brought.
spec fn held<I: Inputs + ?Sized>(a: OpArena, inputs: &I, j: int, at: int) -> bool {
    &&& a.wf()
    &&& a.double()
    &&& a.blocks() == Seq::<crate::model::Block>::empty()
    &&& a.last_slot() == -1
    &&& forall|s: int| 0 <= s < a.n() ==> #[trigger] held_at(a, inputs, j, at, s)
}

/// One more input.
proof fn lemma_upto_next<I: Inputs + ?Sized>(inputs: &I, j: int, key: u16)
    requires
        0 <= j < inputs.count(),
    ensures
        under(union_upto(inputs, j + 1), key) == under(union_upto(inputs, j), key).union(
            under(inputs.set_at(j), key),
        ),
        under(union_upto(inputs, j + 1), key).subset_of(under(union_of(inputs), key)),
        under(union_upto(inputs, j + 1), key).len() <= under(union_of(inputs), key).len(),
        under(inputs.set_at(j), key).len() == 0 ==> under(union_upto(inputs, j + 1), key) == under(
            union_upto(inputs, j),
            key,
        ),
        under(inputs.set_at(j), key).len() > 0 ==> under(union_upto(inputs, j + 1), key).len() > 0
            && in_any(inputs, key),
{
    let (a, b, c) = (
        under(union_upto(inputs, j), key),
        under(union_upto(inputs, j + 1), key),
        under(inputs.set_at(j), key),
    );
    assert forall|l: u16| b.contains(l) == (a.contains(l) || c.contains(l)) by {
        let v = join(key, l);
        if b.contains(l) {
            let i = choose|i: int| 0 <= i < j + 1 && (#[trigger] inputs.set_at(i)).contains(v);
            assert(inputs.set_at(i).contains(v));
        }
        if a.contains(l) {
            let i = choose|i: int| 0 <= i < j && (#[trigger] inputs.set_at(i)).contains(v);
            assert(inputs.set_at(i).contains(v));
        }
        if c.contains(l) {
            assert(inputs.set_at(j).contains(v));
        }
    }
    assert(b =~= a.union(c));
    let u = under(union_of(inputs), key);
    assert forall|l: u16| b.contains(l) implies u.contains(l) by {
        let v = join(key, l);
        let i = choose|i: int| 0 <= i < j + 1 && (#[trigger] inputs.set_at(i)).contains(v);
        assert(inputs.set_at(i).contains(v));
    }
    lemma_set16(a);
    lemma_set16(b);
    lemma_set16(c);
    lemma_set16(u);
    vstd::set_lib::lemma_len_subset(b, u);
    vstd::set_lib::lemma_len_subset(c, b);
    if c.len() == 0 {
        assert(c =~= Set::<u16>::empty());
        assert(b =~= a);
    }
}

/// Keys that input `j` lacks pass unchanged.
proof fn lemma_held_skip<I: Inputs + ?Sized>(a: OpArena, inputs: &I, j: int, at: int, to: int)
    requires
        0 <= j < inputs.count(),
        held(a, inputs, j, at),
        at <= to,
        forall|k: u16| at <= k < to ==> #[trigger] under(inputs.set_at(j), k).len() == 0,
    ensures
        held(a, inputs, j, to),
{
    assert forall|s: int| 0 <= s < a.n() implies #[trigger] held_at(a, inputs, j, to, s) by {
        assert(held_at(a, inputs, j, at, s));
        if at <= a.key(s) < to {
            lemma_upto_next(inputs, j, a.key(s));
        }
    }
}

/// A whole pass brings one more input.
proof fn lemma_held_pass<I: Inputs + ?Sized>(a: OpArena, inputs: &I, j: int)
    requires
        held(a, inputs, j, 65536),
    ensures
        held(a, inputs, j + 1, 0),
{
    assert forall|s: int| 0 <= s < a.n() implies #[trigger] held_at(a, inputs, j + 1, 0, s) by {
        assert(held_at(a, inputs, j, 65536, s));
    }
}

/// No more containers are counted than there are inputs.
proof fn lemma_or_count<I: Inputs + ?Sized>(inputs: &I, key: u16, n: int)
    requires
        0 <= n <= usize::MAX,
    ensures
        or_stats(inputs, key, n).n <= n,
    decreases n,
{
    if n > 0 {
        lemma_or_count(inputs, key, n - 1);
    }
}

/// Nothing under a key in the union of the first inputs: none of them has it.
proof fn lemma_upto_none<I: Inputs + ?Sized>(inputs: &I, key: u16, j: int)
    requires
        under(union_upto(inputs, j), key).len() == 0,
    ensures
        or_stats(inputs, key, j) == no_stats(),
{
    let u = under(union_upto(inputs, j), key);
    lemma_set16(u);
    assert(u =~= Set::<u16>::empty());
    assert forall|i: int| 0 <= i < j implies under(#[trigger] inputs.set_at(i), key).len() == 0 by {
        let w = under(inputs.set_at(i), key);
        lemma_set16(w);
        assert forall|l: u16| !w.contains(l) by {
            if w.contains(l) {
                assert(inputs.set_at(i).contains(join(key, l)));
                assert(union_upto(inputs, j).contains(join(key, l)));
                assert(u.contains(l));
            }
        }
        assert(w =~= Set::<u16>::empty());
    }
    lemma_no_stats(inputs, key, j);
}

/// Slot `s` took input `j`'s container.
#[verifier::rlimit(40)]
proof fn lemma_held_apply<I: Inputs + ?Sized>(
    before: OpArena,
    after: OpArena,
    inputs: &I,
    j: int,
    key: u16,
    s: int,
    p: ContainerRef,
)
    requires
        0 <= j < inputs.count() <= usize::MAX,
        p.wf(),
        p.card == p.lows().len(),
        p.lows() == under(inputs.set_at(j), key),
        p.typ == inputs.form_at(j, key),
        p.stored() == inputs.stored_at(j, key),
        took(before, after, s, p),
        before.cap(s) <= BITMAP_BYTES,
        held(before, inputs, j, key as int),
        0 <= s < before.n(),
        before.key(s) == key,
        under(inputs.set_at(j), key).len() > 0,
        after.wf(),
        after.same_but(before, s),
        after.seeded(s),
        after.acc(s) == (if before.seeded(s) {
            before.acc(s).union(under(inputs.set_at(j), key))
        } else {
            under(inputs.set_at(j), key)
        }),
        form_ok(after, s),
    ensures
        held(after, inputs, j, key + 1),
{
    after.lemma_same_slots(before);
    before.lemma_slots();
    assert forall|i: int| 0 <= i < after.n() implies #[trigger] held_at(after, inputs, j, key + 1, i) by {
        assert(held_at(before, inputs, j, key as int, i));
        if i == s {
            lemma_upto_next(inputs, j, key);
            lemma_or_count(inputs, key, j);
            if !before.seeded(s) {
                lemma_upto_none(inputs, key, j);
            }
            let a = under(union_upto(inputs, j), key);
            lemma_set16(a);
            if a.len() == 0 {
                assert(a =~= Set::<u16>::empty());
                assert(a.union(under(inputs.set_at(j), key)) =~= under(inputs.set_at(j), key));
            }
            lemma_passing(before, after, s, p, inputs, key, j);
        } else {
            assert(after.seeded(i) == before.seeded(i));
            if i < s {
                assert(before.key(i) < before.key(s));
            } else {
                assert(before.key(s) < before.key(i));
            }
        }
    }
}

/// Stream input `j` against the accumulators in the arena.
#[verifier::rlimit(40)]
fn union_pass<I: Inputs + ?Sized>(arena: &mut OpArena, inputs: &I, j: usize, is_last: bool)
    requires
        inputs.ok(),
        j < inputs.count() <= usize::MAX,
        held(*old(arena), inputs, j as int, 0),
        fits_or(old(arena).slots(), inputs),
    ensures
        held(*final(arena), inputs, j + 1, 0),
        final(arena).same_slots(*old(arena)),
{
    let mut c: ContainerCursor = inputs.cursor(j);
    let ghost all = inputs.set_at(j as int);
    let ghost mut at: int = 0;
    let mut s: usize = 0;
    proof {
        assert(onward(all, 0) =~= all);
        arena.lemma_self();
        arena.lemma_slots();
    }
    loop
        invariant
            inputs.ok(),
            j < inputs.count(),
            all == inputs.set_at(j as int),
            c.wf(),
            sourced(c, inputs, j as int),
            inputs.count() <= usize::MAX,
            c.rest() == onward(all, at),
            0 <= at <= 65536,
            arena.same_slots(*old(arena)),
            fits_or(old(arena).slots(), inputs),
            held(*arena, inputs, j as int, at),
            s <= arena.n(),
            forall|i: int| 0 <= i < s ==> #[trigger] arena.key(i) < at,
        decreases c.left(),
    {
        match c.peek_key() {
            None => {
                proof {
                    lemma_onward_none(all, at);
                    lemma_held_skip(*arena, inputs, j as int, at, 65536);
                    lemma_held_pass(*arena, inputs, j as int);
                }
                return;
            },
            Some(key) => {
                let ghost q: int = 0;
                proof {
                    lemma_onward(all, at, key);
                    lemma_upto_next(inputs, j as int, key);
                    arena.lemma_same_slots(*old(arena));
                    arena.lemma_slots();
                    q = choose|q: int| #[trigger]
                        planned(old(arena).slots(), q, key) && or_room(
                            old(arena).slots()[q].capacity as int,
                            inputs,
                            key,
                        );
                    assert(planned(arena.slots(), q, key));
                    assert(arena.key(q) == key);
                    if q < s {
                        assert(arena.key(q) < at);
                    }
                }
                while arena.planned_key(s) < key
                    invariant
                        arena.wf(),
                        s <= q < arena.n() <= 65536,
                        arena.key(q) == key,
                        forall|i: int, k: int| 0 <= i < k < arena.n() ==> #[trigger] arena.key(i) < #[trigger] arena.key(k),
                    decreases q - s,
                {
                    s = s + 1;
                }
                proof {
                    if s < q {
                        assert(arena.key(s as int) < arena.key(q));
                    }
                }
                let p: ContainerRef = c.get();
                let ghost c0 = c;
                proof {
                    lemma_first(c.rest(), key, p.key);
                    assert(c.stored(key) == inputs.stored_at(j as int, key));
                    assert(c.form(key) == inputs.form_at(j as int, key));
                    lemma_held_skip(*arena, inputs, j as int, at, key as int);
                    assert(held_at(*arena, inputs, j as int, key as int, s as int));
                    let a = under(union_upto(inputs, j as int), key);
                    lemma_set16(a);
                    if a.len() == 0 {
                        assert(a =~= Set::<u16>::empty());
                        assert(a.union(p.lows()) =~= p.lows());
                    }
                    assert(arena.slots()[s as int].capacity == arena.cap(s as int));
                }
                c.advance();
                let ghost a0 = *arena;
                union_apply(arena, s, &p, is_last);
                proof {
                    lemma_sourced(c0, c, inputs, j as int);
                    lemma_held_apply(a0, *arena, inputs, j as int, key, s as int, p);
                    arena.lemma_same_slots(a0);
                    arena.lemma_chain(a0, *old(arena));
                    assert forall|i: int| 0 <= i < s + 1 implies #[trigger] arena.key(i) < key + 1 by {
                        if i < s {
                            assert(a0.key(i) < a0.key(s as int));
                        }
                    }
                    at = key + 1;
                }
                s = s + 1;
            },
        }
    }
}

/// Record every seeded slot.
#[verifier::rlimit(40)]
fn union_finalize(
    arena: &mut OpArena,
    Ghost(t): Ghost<Set<u32>>,
    Ghost(ok): Ghost<spec_fn(u16, u8) -> bool>,
)
    requires
        old(arena).wf(),
        forall|s: int|
            0 <= s < old(arena).n() && #[trigger] old(arena).seeded(s) ==> ok(
                old(arena).key(s),
                old(arena).form(s),
            ),
        old(arena).blocks() == Seq::<crate::model::Block>::empty(),
        old(arena).last_slot() == -1,
        forall|s: int|
            0 <= s < old(arena).n() ==> slot_holds(
                *old(arena),
                s,
                under(t, #[trigger] old(arena).key(s)),
            ),
        forall|k: u16| #[trigger] under(t, k).len() > 0 ==> exists|i: int|
            0 <= i < old(arena).n() && #[trigger] old(arena).key(i) == k,
    ensures
        final(arena).wf(),
        final(arena).same_slots(*old(arena)),
        final(arena).set() == t,
        formed(*final(arena), ok),
{
    let n: usize = arena.num_slots();
    let mut s: usize = 0;
    proof {
        lemma_recorded_start(*arena, t);
        arena.lemma_self();
        assert(formed(*arena, ok));
    }
    while s < n
        invariant
            s <= n,
            n == arena.n(),
            arena.same_slots(*old(arena)),
            recorded(*arena, t, s as int),
            formed(*arena, ok),
            forall|i: int|
                s <= i < arena.n() && #[trigger] arena.seeded(i) ==> ok(arena.key(i), arena.form(i)),
            forall|i: int|
                s <= i < arena.n() ==> slot_holds(*arena, i, under(t, #[trigger] arena.key(i))),
        decreases n - s,
    {
        let ghost a0 = *arena;
        assert(slot_holds(a0, s as int, under(t, a0.key(s as int))));
        arena.record_acc(s);
        proof {
            arena.lemma_same_slots(a0);
            arena.lemma_chain(a0, *old(arena));
            lemma_recorded_next(a0, *arena, t, s as int, under(t, a0.key(s as int)));
            lemma_formed_put(
                a0,
                *arena,
                ok,
                a0.key(s as int),
                under(t, a0.key(s as int)),
                a0.form(s as int),
            );
            assert forall|i: int| s + 1 <= i < arena.n() && #[trigger] arena.seeded(i) implies ok(
                arena.key(i),
                arena.form(i),
            ) by {
                assert(a0.seeded(i));
                assert(a0.key(i) == arena.key(i));
            }
            assert forall|i: int| s + 1 <= i < arena.n() implies slot_holds(
                *arena,
                i,
                under(t, #[trigger] arena.key(i)),
            ) by {
                assert(a0.key(i) == arena.key(i));
                assert(slot_holds(a0, i, under(t, a0.key(i))));
                assert(arena.seeded(i) == a0.seeded(i));
            }
        }
        s = s + 1;
    }
    proof {
        arena.lemma_same_slots(*old(arena));
        assert forall|k: u16| #[trigger] under(t, k).len() > 0 implies exists|i: int|
            0 <= i < arena.n() && #[trigger] arena.key(i) == k by {
            let i = choose|i: int| 0 <= i < old(arena).n() && #[trigger] old(arena).key(i) == k;
            assert(arena.key(i) == k);
        }
        lemma_recorded_end(*arena, t);
    }
}

/// Partner-major union: each pass streams one input against the accumulators.
#[verifier::rlimit(40)]
fn union_fold_passes<I: Inputs + ?Sized>(arena: &mut OpArena, inputs: &I)
    requires
        inputs.ok(),
        fresh(*old(arena)),
        old(arena).double(),
        fits_or(old(arena).slots(), inputs),
    ensures
        final(arena).wf(),
        final(arena).same_slots(*old(arena)),
        final(arena).set() == union_of(inputs),
        formed(*final(arena), or_forms_in(inputs, old(arena).slots(), true)),
{
    let ghost ok = or_forms_in(inputs, arena.slots(), true);
    let n: usize = inputs.len();
    let mut j: usize = 0;
    proof {
        arena.lemma_self();
        assert forall|s: int| 0 <= s < arena.n() implies #[trigger] held_at(*arena, inputs, 0, 0, s) by {
            assert(under(union_upto(inputs, 0), arena.key(s)) =~= Set::<u16>::empty());
            assert(!arena.seeded(s));
        }
    }
    while j < n
        invariant
            inputs.ok(),
            j <= n,
            n == inputs.count(),
            arena.same_slots(*old(arena)),
            fits_or(old(arena).slots(), inputs),
            held(*arena, inputs, j as int, 0),
        decreases n - j,
    {
        let ghost a0 = *arena;
        proof {
            a0.lemma_same_slots(*old(arena));
        }
        union_pass(arena, inputs, j, j + 1 == n);
        proof {
            arena.lemma_chain(a0, *old(arena));
        }
        j = j + 1;
    }
    let ghost t = union_of(inputs);
    let ghost a1 = *arena;
    proof {
        assert(union_upto(inputs, n as int) =~= t);
        arena.lemma_same_slots(*old(arena));
        arena.lemma_slots();
        assert forall|s: int| 0 <= s < arena.n() implies slot_holds(
            *arena,
            s,
            under(t, #[trigger] arena.key(s)),
        ) by {
            assert(held_at(*arena, inputs, n as int, 0, s));
        }
        assert forall|s: int| 0 <= s < arena.n() && #[trigger] arena.seeded(s) implies ok(
            arena.key(s),
            arena.form(s),
        ) by {
            assert(held_at(*arena, inputs, n as int, 0, s));
            assert(planned(old(arena).slots(), s, arena.key(s)));
            assert(old(arena).slots()[s].capacity == arena.cap(s));
        }
        assert forall|k: u16| #[trigger] under(t, k).len() > 0 implies exists|i: int|
            0 <= i < arena.n() && #[trigger] arena.key(i) == k by {
            assert(in_any(inputs, k));
            let q = choose|q: int| #[trigger]
                planned(old(arena).slots(), q, k) && or_room(
                    old(arena).slots()[q].capacity as int,
                    inputs,
                    k,
                );
            assert(planned(arena.slots(), q, k));
            assert(arena.key(q) == k);
        }
    }
    union_finalize(arena, Ghost(t), Ghost(ok));
    proof {
        arena.lemma_chain(a1, *old(arena));
    }
}

/// Fold `inputs` (OR) into a sized arena: partner-major while the accumulators stay
/// cache-resident, else key-major.
pub fn union_fold<I: Inputs + ?Sized>(arena: &mut OpArena, inputs: &I)
    requires
        inputs.ok(),
        fresh(*old(arena)),
        fits_or(old(arena).slots(), inputs),
    ensures
        final(arena).wf(),
        final(arena).same_slots(*old(arena)),
        final(arena).set() == union_of(inputs),
        formed(*final(arena), or_forms_in(inputs, old(arena).slots(), old(arena).double())),
{
    if arena.is_double() {
        union_fold_passes(arena, inputs);
    } else {
        union_fold_keys(arena, inputs);
    }
}

/// OR, folded into an arena left for the caller to fold further or to serialize.
pub fn union_into<I: Inputs + ?Sized>(inputs: &I) -> (r: OpArena)
    requires
        inputs.ok(),
    ensures
        r.wf(),
        r.set() == union_of(inputs),
        formed(r, or_forms(inputs)),
{
    union_arena(inputs, aligned_buf(0))
}

/// OR in the memory of `buf`.
pub(crate) fn union_arena<I: Inputs + ?Sized>(inputs: &I, buf: AlignedBuf) -> (r: OpArena)
    requires
        inputs.ok(),
    ensures
        r.wf(),
        r.set() == union_of(inputs),
        formed(r, or_forms(inputs)),
        buf_room(r.memory()) >= buf_room(buf),
{
    let plan: Plan = plan_union(inputs);
    let mut arena: OpArena = OpArena::from_plan_in(&plan, buf);
    let ghost a0 = arena;
    union_fold(&mut arena, inputs);
    proof {
        arena.lemma_same_slots(a0);
    }
    proof {
        let (given, ok) = (or_forms_in(inputs, plan.slots@, plan.double), or_forms(inputs));
        assert(or_slots(inputs, plan.slots@));
        assert(plan.double == or_double(inputs)) by {
            if or_double(inputs) {
                let slots = choose|slots: Seq<SlotPlan>| #[trigger]
                    or_slots(inputs, slots) && inputs.count() > 0 && slots_bytes(slots)
                        <= PARTNER_MAJOR_MAX_ACC_BYTES;
                lemma_or_slots(inputs, slots, plan.slots@);
            }
        }
        assert forall|i: int| 0 <= i < arena.blocks().len() implies ok(
            (#[trigger] arena.blocks()[i]).key,
            arena.forms()[i],
        ) by {
            let key = arena.blocks()[i].key;
            assert(given(key, arena.forms()[i]));
            let s = choose|s: int| #[trigger]
                planned(plan.slots@, s, key) && arena.forms()[i] == or_form(
                    inputs,
                    key,
                    plan.slots@[s].capacity as int,
                    plan.double,
                );
            assert(plan.slots@[s].key == key);
        }
    }
    arena
}

/// N-way union (OR), in op-ready standard form. No inputs give the empty set; a single
/// input is copied.
pub fn union(views: &[FrozenBitmapView]) -> (r: FrozenBitmap)
    ensures
        r.set() == union_of(views),
        !inline_magic(r.src()),
        tidy(r.src()),
        snug(r.src()),
        slim(r.src()),
        forms_ok(r.src(), or_forms(views)),
{
    let arena: OpArena = union_into(views);
    let ghost a = arena;
    let r: FrozenBitmap = arena.serialize();
    proof {
        lemma_forms_fast(a, r.src(), or_forms(views));
    }
    r
}

/// Like [`union`], for storage: each block in its smallest form, so that the bytes are a
/// function of the values.
pub fn union_compact(views: &[FrozenBitmapView]) -> (r: FrozenBitmap)
    ensures
        r.set() == union_of(views),
        !inline_magic(r.src()),
        finished_standard(r.src(), union_of(views)),
{
    let arena: OpArena = union_arena(views, aligned_buf(0));
    let r: FrozenBitmap = encode_smallest(&arena, aligned_buf(0));
    proof {
        lemma_canonical_standard(r.src(), union_of(views));
    }
    r
}

/// Like [`union`], in memory from `p`. `None` where the budget refuses a buffer.
pub fn union_in(views: &[FrozenBitmapView], p: &mut Buffers) -> (r: Option<FrozenBitmap>)
    requires
        old(p).wf(),
        old(p).arenas().out() < usize::MAX,
        old(p).results().out() < usize::MAX,
    ensures
        r matches Some(b) ==> {
            &&& b.set() == union_of(views)
            &&& !inline_magic(b.src())
            &&& tidy(b.src())
            &&& snug(b.src())
            &&& slim(b.src())
            &&& forms_ok(b.src(), or_forms(views))
        },
        folded_once(*old(p), *final(p), r),
{
    let buf: AlignedBuf = match borrow_buf(p) {
        None => {
            return None;
        },
        Some(buf) => buf,
    };
    let ghost buf0 = buf;
    let arena: OpArena = union_arena(views, buf);
    let ghost a = arena;
    let r: FrozenBitmap = arena.serialize();
    proof {
        lemma_forms_fast(a, r.src(), or_forms(views));
    }
    let ghost mid = *p;
    swap_out(p);
    proof {
        assert(taken(old(p).arenas(), mid.arenas(), buf0));
        assert(swapped(*old(p), mid.arenas(), *p));
    }
    Some(r)
}

/// Like [`union_compact`], in memory from `p`. `None` where the budget refuses a buffer.
pub fn union_compact_in(views: &[FrozenBitmapView], p: &mut Buffers) -> (r: Option<FrozenBitmap>)
    requires
        old(p).wf(),
        old(p).arenas().out() < usize::MAX,
        old(p).results().out() < usize::MAX,
    ensures
        r matches Some(b) ==> {
            &&& b.set() == union_of(views)
            &&& !inline_magic(b.src())
            &&& finished_standard(b.src(), union_of(views))
        },
        stored_once(*old(p), *final(p), r),
{
    let buf: AlignedBuf = match borrow_buf(p) {
        None => {
            return None;
        },
        Some(buf) => buf,
    };
    let ghost (mid, buf0) = (*p, buf);
    let arena: OpArena = union_arena(views, buf);
    let out: AlignedBuf = result_buf(p);
    let r: FrozenBitmap = encode_smallest(&arena, out);
    let back: AlignedBuf = arena.into_buf();
    give_buf(p, back);
    proof {
        lemma_canonical_standard(r.src(), union_of(views));
        assert(taken(old(p).results(), p.results(), out));
        assert(given(mid.arenas(), p.arenas(), back, old(p).limits().buffers));
        assert(taken(old(p).arenas(), mid.arenas(), buf0));
    }
    Some(r)
}

} // verus!
