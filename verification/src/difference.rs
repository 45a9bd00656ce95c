//! N-way difference: the first input minus the rest.
use vstd::prelude::*;

use crate::accum::{
    array_fold, bitmap_form, clear_into, clear_into_count, finish_bitmap, fold_set, lemma_fold_next,
    lemma_fold_none, lemma_weights, load_array, load_bitmap, retain_bitmap, retain_runs, run_fold,
    run_step, weight, weights, Merge,
};
use crate::arena::{OpArena, SlotState, CARD_LAZY};
use crate::arrays::array_diff;
use crate::bitmap::FrozenBitmap;
use crate::buffer::{aligned_buf, buf_room, AlignedBuf};
use crate::canon::{finished_standard, lemma_canonical_standard};
use crate::container::{Bitmap, Data, Run};
use crate::cursor::{stored_form, ContainerCursor, ContainerRef};
use crate::decide::shrink_cap_spec;
use crate::encode::encode_smallest;
use crate::fold::{
    folding, formed, forms_ok, fresh, lemma_folding_put, lemma_folding_skip,
    lemma_folding_start, lemma_formed_put, lemma_forms_fast,
    lemma_recorded_end, lemma_recorded_next, lemma_recorded_start, lemma_unclaimed, recorded,
    tallied, trivial,
};
use crate::format::{
    inline_magic, ARRAY_MAX_SIZE, BITMAP_BYTES, BITMAP_WORDS, CT_ARRAY, CT_BITMAP, CT_INLINE,
    CT_RUN, MAX_RUNS,
};
use crate::frozen::{slim, snug, tidy};
use crate::memory::{
    borrow_buf, folded_once, give_buf, given, result_buf, stored_once, swap_out, swapped, taken,
    Buffers,
};
use crate::model::{
    asc16, join, lemma_join, lemma_lists_len, lemma_onward, lemma_onward_none, lemma_set16, onward,
    past, under, upto, Block,
};
use crate::plan::{
    diff_room, difference_of, fits_diff, in_lhs, plan_diff, plan_trivial, planned, slots_ok, touched,
    Op, Plan, SlotPlan,
};
use crate::source::Inputs;
use crate::view::FrozenBitmapView;
use crate::walk::{
    gather_some, gathered, lemma_first, lemma_sourced, lemma_tracks, lemma_tracks_on, lined_up,
    open_from, refs_any, refs_ok, sourced, tracks,
};
use crate::words::{andnot_into_count, bits_set, popcount};

verus! {

/// Bytes that hold whatever a container leaves: itself as it is, or, if it is subtracted
/// from, what it shrinks to.
spec fn lhs_need(lhs: ContainerRef, hit: bool) -> int {
    if hit {
        shrink_cap_spec(lhs.card as int)
    } else {
        lhs.stored()
    }
}

/// A container as it is, in the form it is stored in: a key group as an array, and a group
/// or array outgrown by a bitmap as one.
fn verbatim(lhs: &ContainerRef) -> (r: Data)
    requires
        lhs.wf(),
    ensures
        r.wf(),
        r.set() == lhs.lows(),
        r.spec_typ() == stored_form(lhs.typ, lhs.card as int),
        r matches Data::Run(v) ==> v.len() <= MAX_RUNS && v.len() == weight(*lhs),
        r.spec_bytes() == lhs.stored(),
{
    if lhs.typ == CT_RUN {
        lhs.typed()
    } else if lhs.typ == CT_BITMAP || lhs.card as usize > ARRAY_MAX_SIZE {
        Data::Bitmap(load_bitmap(lhs.typed()))
    } else {
        Data::Array(load_array(&lhs.typed()))
    }
}

/// Runs of the first input under `key`.
pub open spec fn lhs_runs<I: Inputs + ?Sized>(inputs: &I, key: u16) -> int {
    (inputs.stored_at(0, key) - 2) / 4
}

/// Every subtrahend before input `n` that has `key` is runs or an array there.
pub open spec fn rhs_splits<I: Inputs + ?Sized>(inputs: &I, key: u16, n: int) -> bool {
    forall|i: int|
        1 <= i < n && under(#[trigger] inputs.set_at(i), key).len() > 0 ==> inputs.form_at(i, key)
            == CT_RUN || inputs.form_at(i, key) == CT_ARRAY
}

/// Fragments that the subtrahends before input `n` can add under `key`: one for each of their
/// runs or values.
pub open spec fn pieces<I: Inputs + ?Sized>(inputs: &I, key: u16, n: int) -> int
    decreases n,
{
    if n <= 1 {
        0
    } else {
        let card = under(inputs.set_at(n - 1), key).len() as int;
        pieces(inputs, key, n - 1) + if card == 0 {
            0
        } else if inputs.form_at(n - 1, key) == CT_RUN {
            (inputs.stored_at(n - 1, key) - 2) / 4
        } else {
            card
        }
    }
}

/// `typ` is a form of the DIFF of `inputs` under `key`. Untouched, the container of the first
/// input stays in the form it is stored in, or becomes an array if it is small enough for
/// one. Otherwise a small one is an array, runs stay runs while only runs and arrays split
/// them and the fragments are few, and the rest is what a bitmap finishes as. Fragments that
/// are many in all may still be runs where fewer arise.
pub open spec fn diff_form<I: Inputs + ?Sized>(inputs: &I, key: u16, typ: u8) -> bool {
    let n = inputs.count() as int;
    let card = under(inputs.set_at(0), key).len() as int;
    let kept = stored_form(inputs.form_at(0, key), card);
    let rest = bitmap_form(under(difference_of(inputs), key).len());
    if !touched(inputs, key) {
        typ == kept || card <= ARRAY_MAX_SIZE && typ == CT_ARRAY
    } else if card <= ARRAY_MAX_SIZE {
        typ == CT_ARRAY
    } else if inputs.form_at(0, key) == CT_RUN && rhs_splits(inputs, key, n) {
        typ == CT_RUN || typ == rest && lhs_runs(inputs, key) + pieces(inputs, key, n) > MAX_RUNS
    } else {
        typ == rest
    }
}

/// The forms of a DIFF.
pub open spec fn diff_forms<I: Inputs + ?Sized>(inputs: &I) -> spec_fn(u16, u8) -> bool {
    |key: u16, typ: u8| diff_form(inputs, key, typ)
}

/// Every subtrahend is runs or an array.
spec fn splits(rhs: Seq<ContainerRef>) -> bool {
    forall|i: int| 0 <= i < rhs.len() ==> (#[trigger] rhs[i]).typ == CT_RUN || rhs[i].typ == CT_ARRAY
}

/// Worst-case run count of `lhs` minus `rhs` in run form, or `None` if a subtrahend is
/// neither runs nor an array, or the bound is past the run ceiling. Each array value and
/// each run can add one fragment.
fn diff_run_bound(lhs: &ContainerRef, rhs: &Vec<ContainerRef>) -> (r: Option<usize>)
    requires
        lhs.wf(),
        lhs.typ == CT_RUN,
        refs_ok(rhs@),
    ensures
        r is Some <==> splits(rhs@) && weight(*lhs) + weights(rhs@, rhs.len() as int) <= MAX_RUNS,
        r matches Some(n) ==> n == weight(*lhs) + weights(rhs@, rhs.len() as int),
{
    let mut total: usize = lhs.num_runs();
    let mut i: usize = 0;
    while i < rhs.len()
        invariant
            refs_ok(rhs@),
            i <= rhs.len(),
            total == weight(*lhs) + weights(rhs@, i as int),
            total <= MAX_RUNS,
            forall|k: int|
                0 <= k < i ==> (#[trigger] rhs@[k]).typ == CT_RUN || rhs@[k].typ == CT_ARRAY,
        decreases rhs.len() - i,
    {
        assert(rhs@[i as int].wf());
        let extra: usize = if rhs[i].typ == CT_RUN {
            rhs[i].num_runs()
        } else if rhs[i].typ == CT_ARRAY {
            rhs[i].card as usize
        } else {
            return None;
        };
        if extra > MAX_RUNS - total {
            proof {
                lemma_weights(rhs@, i + 1, rhs.len() as int);
            }
            return None;
        }
        total = total + extra;
        i = i + 1;
    }
    Some(total)
}

/// DIFF at one key. A container that nothing is subtracted from is copied; a small one
/// shrinks as an array, runs are split, and the rest is cleared from a bitmap.
#[verifier::rlimit(40)]
fn diff_key(lhs: &ContainerRef, rhs: &Vec<ContainerRef>) -> (r: Data)
    requires
        lhs.wf(),
        lhs.card == lhs.lows().len(),
        refs_ok(rhs@),
    ensures
        r.wf(),
        r.set() == lhs.lows().difference(refs_any(rhs@)),
        r.spec_typ() == (if rhs.len() == 0 {
            stored_form(lhs.typ, lhs.card as int)
        } else if lhs.card <= ARRAY_MAX_SIZE {
            CT_ARRAY
        } else if lhs.typ == CT_RUN && splits(rhs@) && weight(*lhs) + weights(
            rhs@,
            rhs.len() as int,
        ) <= MAX_RUNS {
            CT_RUN
        } else {
            bitmap_form(r.set().len())
        }),
        r matches Data::Run(v) ==> v.len() <= MAX_RUNS,
        r.spec_bytes() <= lhs_need(*lhs, rhs.len() > 0),
        r.spec_bytes() <= BITMAP_BYTES,
{
    let n: usize = rhs.len();
    let ghost s = lhs.lows();
    proof {
        lemma_fold_none(s, rhs@, Merge::Diff);
    }
    if n == 0 {
        assert(rhs@ =~= Seq::<ContainerRef>::empty());
        proof {
            lhs.lemma_stored();
        }
        return verbatim(lhs);
    }
    if lhs.card as usize <= ARRAY_MAX_SIZE {
        return array_fold(lhs, rhs.as_slice(), lhs.card as usize, Merge::Diff);
    }
    if lhs.typ == CT_RUN {
        match diff_run_bound(lhs, rhs) {
            Some(_) => {
                return run_fold(lhs, rhs.as_slice(), Merge::Diff);
            },
            None => {},
        }
    }
    assert(rhs@[0].wf());
    if n == 1 {
        // One bitmap minus one bitmap: a single counted pass, with no copy first.
        match (lhs.typed(), rhs[0].typed()) {
            (Data::Bitmap(lb), Data::Bitmap(rb)) => {
                let mut b: Box<Bitmap> = Box::new([0u64; BITMAP_WORDS]);
                let card: u32 = andnot_into_count(&mut *b, &*lb, &*rb);
                proof {
                    lemma_fold_next(s, rhs@, 0, Merge::Diff);
                }
                return finish_bitmap(b, card);
            },
            _ => {},
        }
    }
    let mut b: Box<Bitmap> = load_bitmap(lhs.typed());
    let mut card: u32 = 0;
    let mut i: usize = 0;
    while i < n
        invariant
            i <= n,
            n == rhs.len(),
            n > 0,
            refs_ok(rhs@),
            bits_set((*b)@) == fold_set(s, rhs@.take(i as int), Merge::Diff),
            i == n ==> card == bits_set((*b)@).len(),
        decreases n - i,
    {
        assert(rhs@[i as int].wf());
        let p: Data = rhs[i].typed();
        if i + 1 == n {
            card = clear_into_count(&mut *b, &p);
        } else {
            clear_into(&mut *b, &p);
        }
        proof {
            lemma_fold_next(s, rhs@, i as int, Merge::Diff);
        }
        i = i + 1;
    }
    assert(rhs@.take(n as int) =~= rhs@);
    finish_bitmap(b, card)
}

/// The difference under a key.
proof fn lemma_diff_under<I: Inputs + ?Sized>(inputs: &I, key: u16, l: u16)
    requires
        inputs.count() > 0,
    ensures
        under(difference_of(inputs), key).contains(l) <==> under(inputs.set_at(0), key).contains(l)
            && forall|i: int|
            1 <= i < inputs.count() ==> !under(#[trigger] inputs.set_at(i), key).contains(l),
{
    let v = join(key, l);
    if under(difference_of(inputs), key).contains(l) {
        assert forall|i: int| 1 <= i < inputs.count() implies !under(
            #[trigger] inputs.set_at(i),
            key,
        ).contains(l) by {}
    } else if inputs.set_at(0).contains(v) {
        let i = choose|i: int| 1 <= i < inputs.count() && (#[trigger] inputs.set_at(i)).contains(v);
        assert(under(inputs.set_at(i), key).contains(l));
    }
}

/// The difference has nothing under a key that the first input lacks.
proof fn lemma_diff_missing<I: Inputs + ?Sized>(inputs: &I, key: u16)
    requires
        inputs.count() > 0,
        under(inputs.set_at(0), key).len() == 0,
    ensures
        under(difference_of(inputs), key).len() == 0,
{
    lemma_set16(under(inputs.set_at(0), key));
    assert(under(inputs.set_at(0), key) =~= Set::<u16>::empty());
    assert forall|l: u16| !under(difference_of(inputs), key).contains(l) by {
        lemma_diff_under(inputs, key, l);
    }
    assert(under(difference_of(inputs), key) =~= Set::<u16>::empty());
}

/// What the subtrahends had under a key makes the difference there.
proof fn lemma_diff_gathered<I: Inputs + ?Sized>(
    inputs: &I,
    before: Seq<ContainerCursor>,
    key: u16,
    refs: Seq<ContainerRef>,
)
    requires
        inputs.count() == before.len() + 1,
        gathered(before, before.len() as int, key, refs),
        forall|j: int|
            0 <= j < before.len() ==> under((#[trigger] before[j]).rest(), key) == under(
                inputs.set_at(j + 1),
                key,
            ),
    ensures
        under(inputs.set_at(0), key).difference(refs_any(refs)) == under(difference_of(inputs), key),
        refs.len() > 0 <==> touched(inputs, key),
{
    let (a, d) = (under(inputs.set_at(0), key), under(difference_of(inputs), key));
    assert forall|l: u16| a.difference(refs_any(refs)).contains(l) == d.contains(l) by {
        lemma_diff_under(inputs, key, l);
        if refs_any(refs).contains(l) {
            let j = choose|j: int|
                0 <= j < before.len() && under((#[trigger] before[j]).rest(), key).contains(l);
            assert(under(inputs.set_at(j + 1), key).contains(l));
        } else if a.contains(l) {
            assert forall|i: int| 1 <= i < inputs.count() implies !under(
                #[trigger] inputs.set_at(i),
                key,
            ).contains(l) by {
                assert(!under(before[i - 1].rest(), key).contains(l));
            }
        }
    }
    assert(a.difference(refs_any(refs)) =~= d);
    if refs.len() > 0 {
        assert(refs[0].lows().len() > 0);
        lemma_set16(refs[0].lows());
        let l = refs[0].lows().choose();
        assert(refs[0].lows().contains(l));
        assert(refs_any(refs).contains(l));
        let j = choose|j: int|
            0 <= j < before.len() && under((#[trigger] before[j]).rest(), key).contains(l);
        let w = under(inputs.set_at(j + 1), key);
        assert(w.contains(l));
        lemma_set16(w);
        if w.len() == 0 {
            assert(w =~= Set::<u16>::empty());
        }
        assert(under(inputs.set_at(j + 1), key).len() > 0);
    }
    if touched(inputs, key) {
        let i = choose|i: int| 1 <= i < inputs.count() && under(#[trigger] inputs.set_at(i), key).len() > 0;
        let w = under(inputs.set_at(i), key);
        lemma_set16(w);
        let l = w.choose();
        assert(w.contains(l));
        assert(under(before[i - 1].rest(), key).contains(l));
        assert(refs_any(refs).contains(l));
    }
}

/// What was gathered from the subtrahends splits as they do.
#[verifier::rlimit(40)]
proof fn lemma_rhs_refs<I: Inputs + ?Sized>(
    inputs: &I,
    s: Seq<ContainerCursor>,
    n: int,
    key: u16,
    refs: Seq<ContainerRef>,
)
    requires
        0 <= n <= s.len(),
        lined_up(s, n, key, refs),
        refs_ok(refs),
        forall|j: int|
            0 <= j < n ==> under((#[trigger] s[j]).rest(), key) == under(inputs.set_at(j + 1), key)
                && sourced(s[j], inputs, j + 1),
    ensures
        splits(refs) <==> rhs_splits(inputs, key, n + 1),
        weights(refs, refs.len() as int) == pieces(inputs, key, n + 1),
    decreases n,
{
    if n > 0 {
        let c = s[n - 1];
        assert(under(c.rest(), key) == under(inputs.set_at(n), key));
        if under(c.rest(), key).len() == 0 {
            lemma_rhs_refs(inputs, s, n - 1, key, refs);
            assert(rhs_splits(inputs, key, n + 1) == rhs_splits(inputs, key, n));
        } else {
            let t = refs.drop_last();
            let m = refs.len() as int;
            assert forall|i: int| 0 <= i < t.len() implies (#[trigger] t[i]).wf() && t[i].card
                == t[i].lows().len() by {
                assert(t[i] == refs[i]);
            }
            lemma_rhs_refs(inputs, s, n - 1, key, t);
            lemma_weights_prefix(refs, t, m - 1);
            let r = refs.last();
            assert(refs[m - 1] == r);
            assert(r.wf() && r.card == r.lows().len());
            assert(c.stored(key) == inputs.stored_at(n, key));
            assert(c.form(key) == inputs.form_at(n, key));
            assert(rhs_splits(inputs, key, n + 1) == (rhs_splits(inputs, key, n) && (r.typ == CT_RUN
                || r.typ == CT_ARRAY))) by {
                if rhs_splits(inputs, key, n + 1) {
                    assert(under(inputs.set_at(n), key).len() > 0);
                }
            }
            assert(splits(refs) == (splits(t) && (r.typ == CT_RUN || r.typ == CT_ARRAY))) by {
                if splits(refs) {
                    assert forall|i: int| 0 <= i < t.len() implies (#[trigger] t[i]).typ == CT_RUN
                        || t[i].typ == CT_ARRAY by {
                        assert(t[i] == refs[i]);
                    }
                }
                if splits(t) && (r.typ == CT_RUN || r.typ == CT_ARRAY) {
                    assert forall|i: int| 0 <= i < refs.len() implies (#[trigger] refs[i]).typ == CT_RUN
                        || refs[i].typ == CT_ARRAY by {
                        if i < m - 1 {
                            assert(t[i] == refs[i]);
                        }
                    }
                }
            }
        }
    }
}

proof fn lemma_weights_prefix(a: Seq<ContainerRef>, b: Seq<ContainerRef>, n: int)
    requires
        n <= a.len(),
        n <= b.len(),
        forall|i: int| 0 <= i < n ==> a[i] == b[i],
    ensures
        weights(a, n) == weights(b, n),
    decreases n,
{
    if n > 0 {
        lemma_weights_prefix(a, b, n - 1);
    }
}

/// A key that no subtrahend has keeps all its values.
proof fn lemma_untouched<I: Inputs + ?Sized>(inputs: &I, key: u16, n: int)
    requires
        inputs.count() > 0,
        !touched(inputs, key),
        n <= inputs.count(),
    ensures
        under(difference_of(inputs), key) == under(inputs.set_at(0), key),
        rhs_splits(inputs, key, n),
        pieces(inputs, key, n) == 0,
    decreases n,
{
    if n > 1 {
        lemma_untouched(inputs, key, n - 1);
        assert(under(inputs.set_at(n - 1), key).len() == 0);
    } else {
        let (a, b) = (under(difference_of(inputs), key), under(inputs.set_at(0), key));
        assert forall|l: u16| a.contains(l) == b.contains(l) by {
            lemma_diff_under(inputs, key, l);
            if b.contains(l) {
                assert forall|i: int| 1 <= i < inputs.count() implies !under(
                    #[trigger] inputs.set_at(i),
                    key,
                ).contains(l) by {
                    let w = under(inputs.set_at(i), key);
                    lemma_set16(w);
                    assert(w.len() == 0);
                    assert(w =~= Set::<u16>::empty());
                }
            }
        }
        assert(a =~= b);
    }
}

/// The slot of a key of the first input has room for what is left there.
proof fn lemma_diff_slot<I: Inputs + ?Sized>(inputs: &I, slots: Seq<SlotPlan>, slot: int, key: u16)
    requires
        slots_ok(slots),
        fits_diff(slots, inputs),
        in_lhs(inputs, key),
        planned(slots, slot, key),
    ensures
        diff_room(slots[slot].capacity as int, inputs, key),
{
    let s = choose|s: int| #[trigger]
        planned(slots, s, key) && diff_room(slots[s].capacity as int, inputs, key);
    assert(s == slot) by {
        if s < slot {
            assert(slots[s].key < slots[slot].key);
        } else if slot < s {
            assert(slots[slot].key < slots[s].key);
        }
    }
}

/// Key-major difference.
#[verifier::rlimit(40)]
fn diff_fold_keys<I: Inputs + ?Sized>(arena: &mut OpArena, inputs: &I)
    requires
        inputs.ok(),
        inputs.count() > 0,
        fresh(*old(arena)),
        fits_diff(old(arena).slots(), inputs),
    ensures
        final(arena).wf(),
        final(arena).same_slots(*old(arena)),
        final(arena).set() == difference_of(inputs),
        formed(*final(arena), diff_forms(inputs)),
{
    let ghost ok = diff_forms(inputs);
    let n: usize = inputs.len();
    let mut a: ContainerCursor = inputs.cursor(0);
    let ghost c0 = a;
    let mut rhs: Vec<ContainerCursor> = open_from(inputs, 1);
    let ghost all = inputs.set_at(0);
    let ghost t = difference_of(inputs);
    let ghost mut at: int = 0;
    proof {
        lemma_folding_start(*arena, t);
        arena.lemma_self();
        c0.lemma_self();
        assert(onward(all, 0) =~= all);
        assert(formed(*arena, ok));
        assert forall|j: int| 0 <= j < n - 1 implies sourced(#[trigger] rhs@[j], inputs, j + 1) by {
            assert(rhs@[j].wf());
        }
    }
    loop
        invariant
            inputs.ok(),
            n == inputs.count(),
            n > 0,
            all == inputs.set_at(0),
            t == difference_of(inputs),
            a.wf(),
            a.same_source(c0),
            forall|key: u16| #[trigger] c0.stored(key) == inputs.stored_at(0, key),
            forall|key: u16| #[trigger] c0.form(key) == inputs.form_at(0, key),
            forall|j: int| 0 <= j < n - 1 ==> sourced(#[trigger] rhs@[j], inputs, j + 1),
            ok == diff_forms(inputs),
            formed(*arena, ok),
            a.rest() == onward(all, at),
            rhs.len() == n - 1,
            forall|j: int| 0 <= j < n - 1 ==> tracks(#[trigger] rhs@[j], inputs.set_at(j + 1), at),
            arena.same_slots(*old(arena)),
            fits_diff(old(arena).slots(), inputs),
            folding(*arena, t, at),
        decreases a.left(),
    {
        match a.peek_key() {
            None => {
                proof {
                    lemma_onward_none(all, at);
                    if at < 65536 {
                        assert forall|k: u16| at <= k < 65536 implies #[trigger] under(t, k).len() == 0 by {
                            assert(under(all, k).len() == 0);
                            lemma_diff_missing(inputs, k);
                        }
                        lemma_folding_skip(*arena, t, at, 65536);
                        assert(upto(t, 65536) =~= t);
                    } else {
                        assert(upto(t, at) =~= t);
                    }
                }
                return;
            },
            Some(key) => {
                proof {
                    lemma_onward(all, at, key);
                    a.lemma_same_source(c0);
                    assert forall|k: u16| at <= k < key implies #[trigger] under(t, k).len() == 0 by {
                        assert(under(all, k).len() == 0);
                        lemma_diff_missing(inputs, k);
                    }
                    assert(in_lhs(inputs, key));
                    let s = choose|s: int| #[trigger]
                        planned(old(arena).slots(), s, key) && diff_room(
                            old(arena).slots()[s].capacity as int,
                            inputs,
                            key,
                        );
                    arena.lemma_same_slots(*old(arena));
                    assert(planned(arena.slots(), s, key));
                    lemma_unclaimed(*arena, t, at, key, s);
                    assert(arena.next() <= s < arena.n() && arena.key(s) == key);
                }
                let lhs: ContainerRef = a.get();
                proof {
                    lemma_first(a.rest(), key, lhs.key);
                    assert(lhs.stored() == c0.stored(key));
                    assert(lhs.typ == c0.form(key));
                }
                let ghost a1 = a;
                a.advance();
                let ghost before = rhs@;
                let refs: Vec<ContainerRef> = gather_some(&mut rhs, key);
                proof {
                    a.lemma_chain(a1, c0);
                    assert forall|j: int| 0 <= j < n - 1 implies under((#[trigger] before[j]).rest(), key)
                        == under(inputs.set_at(j + 1), key) by {
                        lemma_tracks(before[j], inputs.set_at(j + 1), at, key);
                    }
                    assert forall|j: int| 0 <= j < n - 1 implies tracks(
                        #[trigger] rhs@[j],
                        inputs.set_at(j + 1),
                        key + 1,
                    ) by {
                        assert(before[j].wf());
                        lemma_tracks_on(before[j], rhs@[j], inputs.set_at(j + 1), at, key);
                    }
                    assert forall|j: int| 0 <= j < n - 1 implies sourced(
                        #[trigger] rhs@[j],
                        inputs,
                        j + 1,
                    ) by {
                        assert(sourced(before[j], inputs, j + 1));
                        lemma_sourced(before[j], rhs@[j], inputs, j + 1);
                    }
                    assert forall|j: int| 0 <= j < n - 1 implies under((#[trigger] before[j]).rest(), key)
                        == under(inputs.set_at(j + 1), key) && sourced(before[j], inputs, j + 1) by {
                        assert(before[j].wf());
                    }
                    lemma_rhs_refs(inputs, before, n - 1, key, refs@);
                    lemma_diff_gathered(inputs, before, key, refs@);
                }
                let ghost b0 = *arena;
                let slot: usize = arena.claim_key(key);
                let ghost b1 = *arena;
                let data: Data = diff_key(&lhs, &refs);
                proof {
                    b1.lemma_same_slots(b0);
                    b0.lemma_slots();
                    lemma_diff_slot(inputs, b0.slots(), slot as int, key);
                    assert(b0.slots()[slot as int].capacity == b0.cap(slot as int));
                }
                arena.put(slot, &data);
                proof {
                    arena.lemma_chain(b1, b0);
                    arena.lemma_chain(b0, *old(arena));
                    lemma_folding_put(b0, *arena, slot as int, t, at, key, data.set());
                    assert(diff_form(inputs, key, data.spec_typ()));
                    lemma_formed_put(b0, *arena, ok, key, data.set(), data.spec_typ());
                    at = key + 1;
                }
            },
        }
    }
}

// --- partner-major -------------------------------------------------------------------

/// The accumulator can be subtracted from: an array, or any form in a bitmap-sized slot.
spec fn foldable(a: OpArena, s: int) -> bool {
    a.form(s) == CT_ARRAY || a.cap(s) == BITMAP_BYTES
}

/// Subtract one container from an array accumulator: arrays merge to the other side, runs
/// and bitmaps filter in place.
fn diff_array_acc(arena: &mut OpArena, s: usize, cur: Vec<u16>, p: &ContainerRef)
    requires
        old(arena).wf(),
        old(arena).last_slot() < s < old(arena).n(),
        old(arena).double(),
        asc16(cur@),
        2 * cur.len() <= old(arena).cap(s as int),
        p.wf(),
    ensures
        final(arena).wf(),
        final(arena).same_but(*old(arena), s as int),
        final(arena).seeded(s as int),
        final(arena).acc(s as int) == cur@.to_set().difference(p.lows()),
        final(arena).form(s as int) == CT_ARRAY,
        final(arena).st(s as int).card == final(arena).acc(s as int).len(),
{
    let ghost u = cur@.to_set().difference(p.lows());
    let len: usize = cur.len();
    proof {
        arena.lemma_slots();
        crate::model::lemma_asc16_len(cur@);
        crate::model::lemma_asc16_bound(cur@);
        lemma_set16(u);
        vstd::set_lib::lemma_len_subset(u, cur@.to_set());
        assert(cur@.take(len as int) =~= cur@);
    }
    match p.typed() {
        Data::Run(runs) => {
            let mut v: Vec<u16> = cur;
            let n: u32 = retain_runs(v.as_mut_slice(), len as u32, runs.as_slice(), false);
            proof {
                lemma_lists_len(v@, n as int, u);
            }
            v.truncate(n as usize);
            let d: Data = Data::Array(v);
            assert(d.set() == u);
            arena.save(s, &d, n, false);
        },
        Data::Bitmap(b) => {
            let mut v: Vec<u16> = cur;
            let n: u32 = retain_bitmap(v.as_mut_slice(), len as u32, &*b, false);
            proof {
                lemma_lists_len(v@, n as int, u);
            }
            v.truncate(n as usize);
            let d: Data = Data::Array(v);
            assert(d.set() == u);
            arena.save(s, &d, n, false);
        },
        q => {
            let b: Vec<u16> = load_array(&q);
            let mut out: Vec<u16> = vec![0u16; len];
            let n: usize = array_diff(cur.as_slice(), b.as_slice(), out.as_mut_slice());
            proof {
                lemma_lists_len(out@, n as int, u);
            }
            out.truncate(n);
            let d: Data = Data::Array(out);
            assert(d.set() == u);
            arena.save(s, &d, n as u32, true);
        },
    }
}

/// Subtract one container from a bitmap accumulator, the count left to the last pass.
fn diff_bitmap_acc(
    arena: &mut OpArena,
    s: usize,
    cur: Box<Bitmap>,
    p: &ContainerRef,
    is_last: bool,
    flip: bool,
)
    requires
        old(arena).wf(),
        old(arena).last_slot() < s < old(arena).n(),
        old(arena).double(),
        old(arena).cap(s as int) == BITMAP_BYTES,
        p.wf(),
    ensures
        final(arena).wf(),
        final(arena).same_but(*old(arena), s as int),
        final(arena).seeded(s as int),
        final(arena).acc(s as int) == bits_set((*cur)@).difference(p.lows()),
        final(arena).form(s as int) == CT_BITMAP,
        tallied(*final(arena), s as int, is_last),
{
    let mut b: Box<Bitmap> = cur;
    let card: u32 = if is_last {
        clear_into_count(&mut *b, &p.typed())
    } else {
        clear_into(&mut *b, &p.typed());
        CARD_LAZY
    };
    let d: Data = Data::Bitmap(b);
    arena.save(s, &d, card, flip);
}

/// Form and runs of slot `s` after container `p` was subtracted.
spec fn cut(before: OpArena, after: OpArena, s: int, p: ContainerRef) -> bool {
    if before.form(s) == CT_ARRAY {
        after.form(s) == CT_ARRAY
    } else if before.form(s) == CT_RUN && (p.typ == CT_RUN || p.typ == CT_ARRAY) && before.st(s).runs
        + weight(p) <= MAX_RUNS {
        after.form(s) == CT_RUN && after.st(s).runs <= before.st(s).runs + weight(p)
    } else {
        after.form(s) == CT_BITMAP
    }
}

/// Subtract one container from slot `s`'s accumulator. Runs are split while the fragments
/// stay under the run ceiling; a partner that cannot be subtracted from runs, or one too
/// many, turns them into a bitmap.
#[verifier::rlimit(40)]
fn diff_apply(arena: &mut OpArena, s: usize, p: &ContainerRef, is_last: bool)
    requires
        old(arena).wf(),
        old(arena).last_slot() < s < old(arena).n(),
        old(arena).double(),
        old(arena).seeded(s as int),
        foldable(*old(arena), s as int),
        p.wf(),
    ensures
        final(arena).wf(),
        final(arena).same_but(*old(arena), s as int),
        final(arena).seeded(s as int),
        final(arena).acc(s as int) == old(arena).acc(s as int).difference(p.lows()),
        foldable(*final(arena), s as int),
        cut(*old(arena), *final(arena), s as int, *p),
        tallied(*final(arena), s as int, is_last),
{
    let ghost a0 = *arena;
    proof {
        arena.lemma_slots();
    }
    match arena.load(s) {
        Data::Array(cur) => {
            diff_array_acc(arena, s, cur, p);
        },
        Data::Run(cur) => {
            let q: Data = p.typed();
            proof {
                q.lemma_listing();
            }
            let splits: bool = match &q {
                Data::Run(r) => cur.len() + r.len() <= MAX_RUNS,
                Data::Array(v) => {
                    assert(v@ == q.listing());
                    proof {
                        crate::model::lemma_asc16_len(v@);
                    }
                    cur.len() + v.len() <= MAX_RUNS
                },
                _ => false,
            };
            if splits {
                let (runs, card): (Vec<Run>, u32) = run_step(&cur, &q, Merge::Diff);
                arena.save(s, &Data::Run(runs), card, true);
            } else {
                let b: Box<Bitmap> = load_bitmap(Data::Run(cur));
                diff_bitmap_acc(arena, s, b, p, is_last, true);
            }
        },
        Data::Bitmap(cur) => {
            diff_bitmap_acc(arena, s, cur, p, is_last, false);
        },
        Data::Inline(_) => {},
    }
    proof {
        arena.lemma_same_slots(a0);
    }
}

/// Form and runs of slot `s` once seeded with container `l`, less `p` if there is one, where
/// `hit` tells whether any subtrahend touches it.
spec fn seeded_as(a: OpArena, s: int, l: ContainerRef, p: Option<ContainerRef>, hit: bool) -> bool {
    let (form, runs) = (a.form(s), a.st(s).runs as int);
    if l.card <= ARRAY_MAX_SIZE {
        form == CT_ARRAY || !hit && form == stored_form(l.typ, l.card as int)
    } else {
        match p {
            None => form == stored_form(l.typ, l.card as int) && (form == CT_RUN ==> runs == weight(l)),
            Some(q) => if l.typ == CT_RUN && (q.typ == CT_RUN || q.typ == CT_ARRAY) && weight(l)
                + weight(q) <= MAX_RUNS {
                form == CT_RUN && runs <= weight(l) + weight(q)
            } else {
                form == CT_BITMAP
            },
        }
    }
}

/// Seed slot `s` with the first input's container, fused with the first subtrahend's where
/// it shares the key. A small container seeds as an array whenever the slot can hold one,
/// which is so wherever a subtrahend touches it; everything else seeds as it is.
#[verifier::rlimit(40)]
fn diff_seed(
    arena: &mut OpArena,
    s: usize,
    l: &ContainerRef,
    p: Option<ContainerRef>,
    is_last: bool,
    Ghost(hit): Ghost<bool>,
)
    requires
        old(arena).wf(),
        old(arena).last_slot() < s < old(arena).n(),
        old(arena).double(),
        l.wf(),
        l.card == l.lows().len(),
        p matches Some(q) ==> q.wf(),
        p is Some ==> hit,
        old(arena).cap(s as int) == BITMAP_BYTES || lhs_need(*l, hit) <= old(arena).cap(s as int),
    ensures
        final(arena).wf(),
        final(arena).same_but(*old(arena), s as int),
        final(arena).seeded(s as int),
        final(arena).acc(s as int) == (match p {
            Some(q) => l.lows().difference(q.lows()),
            None => l.lows(),
        }),
        hit ==> foldable(*final(arena), s as int),
        seeded_as(*final(arena), s as int, *l, p, hit),
        is_last ==> final(arena).st(s as int).card == final(arena).acc(s as int).len(),
{
    let ghost a0 = *arena;
    proof {
        arena.lemma_slots();
        l.lemma_stored();
    }
    let cap: usize = arena.slot_capacity(s);
    let small: bool = l.card as usize <= ARRAY_MAX_SIZE;
    // Fold the first subtrahend straight from the sources.
    match p {
        Some(q) => {
            match (l.typed(), q.typed()) {
                (Data::Array(a), Data::Array(b)) => {
                    if small {
                        proof {
                            crate::model::lemma_asc16_len(a@);
                        }
                        diff_array_acc(arena, s, a, &q);
                        proof {
                            arena.lemma_same_slots(a0);
                        }
                        return;
                    }
                },
                (Data::Bitmap(a), Data::Bitmap(b)) => {
                    if !small {
                        let mut out: Box<Bitmap> = Box::new([0u64; BITMAP_WORDS]);
                        let card: u32 = andnot_into_count(&mut *out, &*a, &*b);
                        let d: Data = Data::Bitmap(out);
                        arena.save(s, &d, card, false);
                        proof {
                            arena.lemma_same_slots(a0);
                        }
                        return;
                    }
                },
                _ => {},
            }
        },
        None => {},
    }
    let d: Data = if small && (l.typ == CT_ARRAY || l.typ == CT_INLINE || cap >= l.card as usize * 2) {
        Data::Array(load_array(&l.typed()))
    } else {
        verbatim(l)
    };
    arena.save(s, &d, l.card, false);
    proof {
        arena.lemma_same_slots(a0);
    }
    let ghost a1 = *arena;
    match p {
        Some(q) => {
            diff_apply(arena, s, &q, is_last);
            proof {
                arena.lemma_chain(a1, a0);
                arena.lemma_same_slots(a1);
                arena.lemma_but_chain(a1, a0, s as int);
            }
        },
        None => {},
    }
}

/// The first input without the others before input `j`.
pub open spec fn difference_upto<I: Inputs + ?Sized>(inputs: &I, j: int) -> Set<u32> {
    Set::new(
        |v: u32|
            inputs.set_at(0).contains(v) && forall|i: int|
                1 <= i < j ==> !(#[trigger] inputs.set_at(i)).contains(v),
    )
}

/// The form and runs of what the subtrahends before input `j` have left under `key`.
spec fn passing<I: Inputs + ?Sized>(inputs: &I, key: u16, j: int, form: u8, runs: int) -> bool {
    let card = under(inputs.set_at(0), key).len() as int;
    let typ = inputs.form_at(0, key);
    if card <= ARRAY_MAX_SIZE {
        form == CT_ARRAY || !touched(inputs, key) && form == stored_form(typ, card)
    } else {
        let splits = typ == CT_RUN && rhs_splits(inputs, key, j);
        let most = lhs_runs(inputs, key) + pieces(inputs, key, j);
        &&& form == CT_RUN || form == CT_BITMAP
        &&& form == CT_RUN ==> splits && runs <= most
        &&& splits && most <= MAX_RUNS ==> form == CT_RUN
        &&& typ == CT_RUN ==> lhs_runs(inputs, key) <= MAX_RUNS
    }
}

/// Fragments only add up.
proof fn lemma_pieces<I: Inputs + ?Sized>(inputs: &I, key: u16, j: int, p: ContainerRef)
    requires
        1 <= j,
        p.wf(),
        p.card == p.lows().len(),
        p.lows() == under(inputs.set_at(j), key),
        p.lows().len() > 0,
        p.typ == inputs.form_at(j, key),
        p.stored() == inputs.stored_at(j, key),
    ensures
        pieces(inputs, key, j + 1) == pieces(inputs, key, j) + weight(p),
        weight(p) >= 0,
        rhs_splits(inputs, key, j + 1) <==> rhs_splits(inputs, key, j) && (p.typ == CT_RUN || p.typ
            == CT_ARRAY),
{
    if rhs_splits(inputs, key, j + 1) {
        assert(under(inputs.set_at(j), key).len() > 0);
    }
}

/// A subtrahend that lacks the key adds nothing.
proof fn lemma_no_pieces<I: Inputs + ?Sized>(inputs: &I, key: u16, j: int)
    requires
        1 <= j,
        under(inputs.set_at(j), key).len() == 0,
    ensures
        pieces(inputs, key, j + 1) == pieces(inputs, key, j),
        rhs_splits(inputs, key, j + 1) <==> rhs_splits(inputs, key, j),
{
}

/// Slot `s` holds what the subtrahends before input `j` have left under its key.
spec fn held_at<I: Inputs + ?Sized>(a: OpArena, inputs: &I, j: int, s: int) -> bool {
    let key = a.key(s);
    if under(inputs.set_at(0), key).len() == 0 {
        !a.seeded(s)
    } else {
        &&& a.seeded(s)
        &&& a.acc(s) == under(difference_upto(inputs, j), key)
        &&& touched(inputs, key) ==> foldable(a, s)
        &&& a.acc(s).len() > 0 ==> passing(inputs, key, j, a.form(s), a.st(s).runs as int)
    }
}

/// One more subtrahend.
proof fn lemma_upto_next<I: Inputs + ?Sized>(inputs: &I, j: int, key: u16)
    requires
        1 <= j < inputs.count(),
    ensures
        under(difference_upto(inputs, j + 1), key) == under(difference_upto(inputs, j), key).difference(
            under(inputs.set_at(j), key),
        ),
        under(inputs.set_at(j), key).len() == 0 ==> under(difference_upto(inputs, j + 1), key)
            == under(difference_upto(inputs, j), key),
        under(difference_upto(inputs, j), key).len() == 0 ==> under(
            difference_upto(inputs, j + 1),
            key,
        ) == under(difference_upto(inputs, j), key),
        under(inputs.set_at(j), key).len() > 0 ==> touched(inputs, key),
{
    let (a, b, c) = (
        under(difference_upto(inputs, j), key),
        under(difference_upto(inputs, j + 1), key),
        under(inputs.set_at(j), key),
    );
    assert forall|l: u16| b.contains(l) == (a.contains(l) && !c.contains(l)) by {
        let v = join(key, l);
        if b.contains(l) {
            assert(!inputs.set_at(j).contains(v));
            assert forall|i: int| 1 <= i < j implies !(#[trigger] inputs.set_at(i)).contains(v) by {}
        }
        if a.contains(l) && !c.contains(l) {
            assert forall|i: int| 1 <= i < j + 1 implies !(#[trigger] inputs.set_at(i)).contains(v) by {
                if i < j {
                    assert(!inputs.set_at(i).contains(v));
                }
            }
        }
    }
    assert(b =~= a.difference(c));
    lemma_set16(a);
    lemma_set16(c);
    if c.len() == 0 {
        assert(c =~= Set::<u16>::empty());
        assert(b =~= a);
    }
    if a.len() == 0 {
        assert(a =~= Set::<u16>::empty());
        assert(b =~= a);
    }
}

/// Subtrahends folded by the first pass.
spec fn first_pass<I: Inputs + ?Sized>(inputs: &I) -> int {
    if inputs.count() > 1 {
        2
    } else {
        1
    }
}

/// The first pass has come to block `at`.
spec fn seeding<I: Inputs + ?Sized>(a: OpArena, inputs: &I, at: int) -> bool {
    &&& a.wf()
    &&& a.double()
    &&& a.blocks() == Seq::<Block>::empty()
    &&& a.last_slot() == -1
    &&& 0 <= a.next() <= a.n()
    &&& forall|s: int| 0 <= s < a.next() ==> #[trigger] a.key(s) < at
    &&& forall|s: int|
        0 <= s < a.n() && #[trigger] a.key(s) < at ==> held_at(a, inputs, first_pass(inputs), s)
    &&& forall|s: int| 0 <= s < a.n() && #[trigger] a.key(s) >= at ==> !a.seeded(s)
}

proof fn lemma_seeding_skip<I: Inputs + ?Sized>(a: OpArena, inputs: &I, at: int, to: int)
    requires
        seeding(a, inputs, at),
        at <= to,
        forall|k: u16| at <= k < to ==> #[trigger] under(inputs.set_at(0), k).len() == 0,
    ensures
        seeding(a, inputs, to),
{
    assert forall|s: int| 0 <= s < a.n() && #[trigger] a.key(s) < to implies held_at(
        a,
        inputs,
        first_pass(inputs),
        s,
    ) by {
        if a.key(s) >= at {
            assert(under(inputs.set_at(0), a.key(s)).len() == 0);
        }
    }
}

/// Slot `s` was claimed and seeded.
proof fn lemma_seeding_next<I: Inputs + ?Sized>(
    before: OpArena,
    claimed: OpArena,
    after: OpArena,
    inputs: &I,
    key: u16,
    s: int,
)
    requires
        inputs.count() > 0,
        seeding(before, inputs, key as int),
        before.next() <= s < before.n(),
        before.key(s) == key,
        claimed.wf(),
        claimed.next() == s + 1,
        claimed.same_slots(before),
        claimed.blocks() == before.blocks(),
        claimed.last_slot() == before.last_slot(),
        forall|i: int| claimed.st(i) == before.st(i) && claimed.acc(i) == before.acc(i),
        after.wf(),
        after.same_but(claimed, s),
        after.seeded(s),
        under(inputs.set_at(0), key).len() > 0,
        after.acc(s) == under(difference_upto(inputs, first_pass(inputs)), key),
        touched(inputs, key) ==> foldable(after, s),
        passing(inputs, key, first_pass(inputs), after.form(s), after.st(s).runs as int),
    ensures
        seeding(after, inputs, key + 1),
        after.same_slots(before),
{
    after.lemma_chain(claimed, before);
    after.lemma_same_slots(before);
    claimed.lemma_same_slots(before);
    before.lemma_slots();
    before.lemma_st();
    claimed.lemma_st();
    assert forall|i: int| 0 <= i < after.next() implies #[trigger] after.key(i) < key + 1 by {
        if i < s {
            assert(before.key(i) < before.key(s));
        }
    }
    assert forall|i: int| 0 <= i < after.n() && #[trigger] after.key(i) < key + 1 implies held_at(
        after,
        inputs,
        first_pass(inputs),
        i,
    ) by {
        if i != s {
            if i > s {
                assert(before.key(s) < before.key(i));
            } else {
                assert(before.key(i) < before.key(s));
            }
            assert(before.key(i) < key);
            assert(held_at(before, inputs, first_pass(inputs), i));
            assert(after.seeded(i) == claimed.seeded(i));
            assert(claimed.seeded(i) == before.seeded(i));
            assert(after.form(i) == claimed.form(i));
            assert(claimed.form(i) == before.form(i));
            assert(after.st(i) == before.st(i));
        }
    }
    assert forall|i: int| 0 <= i < after.n() && #[trigger] after.key(i) >= key + 1 implies !after.seeded(
        i,
    ) by {
        assert(before.key(i) >= key);
        assert(!before.seeded(i));
        assert(after.seeded(i) == claimed.seeded(i));
        assert(claimed.seeded(i) == before.seeded(i));
    }
}

/// Seed every key of the first input, fused with the first subtrahend.
#[verifier::rlimit(40)]
fn diff_first_pass<I: Inputs + ?Sized>(arena: &mut OpArena, inputs: &I)
    requires
        inputs.ok(),
        inputs.count() > 0,
        fresh(*old(arena)),
        old(arena).double(),
        fits_diff(old(arena).slots(), inputs),
    ensures
        seeding(*final(arena), inputs, 65536),
        final(arena).same_slots(*old(arena)),
{
    let n: usize = inputs.len();
    let mut lhs: ContainerCursor = inputs.cursor(0);
    let ghost c0 = lhs;
    let mut p1: ContainerCursor = if n > 1 {
        inputs.cursor(1)
    } else {
        ContainerCursor::empty()
    };
    let ghost all = inputs.set_at(0);
    let ghost mut at: int = 0;
    proof {
        assert(onward(all, 0) =~= all);
        arena.lemma_self();
        arena.lemma_slots();
        c0.lemma_self();
    }
    loop
        invariant
            inputs.ok(),
            n == inputs.count(),
            n > 0,
            all == inputs.set_at(0),
            lhs.wf(),
            lhs.same_source(c0),
            forall|key: u16| #[trigger] c0.stored(key) == inputs.stored_at(0, key),
            forall|key: u16| #[trigger] c0.form(key) == inputs.form_at(0, key),
            n > 1 ==> sourced(p1, inputs, 1),
            lhs.rest() == onward(all, at),
            p1.wf(),
            n > 1 ==> tracks(p1, inputs.set_at(1), at),
            n == 1 ==> p1.rest() == Set::<u32>::empty(),
            arena.same_slots(*old(arena)),
            fits_diff(old(arena).slots(), inputs),
            seeding(*arena, inputs, at),
            0 <= at <= 65536,
        decreases lhs.left(),
    {
        match lhs.peek_key() {
            None => {
                proof {
                    lemma_onward_none(all, at);
                    lemma_seeding_skip(*arena, inputs, at, 65536);
                }
                return;
            },
            Some(key) => {
                proof {
                    lemma_onward(all, at, key);
                    lemma_seeding_skip(*arena, inputs, at, key as int);
                    lhs.lemma_same_source(c0);
                    assert(in_lhs(inputs, key));
                    let s = choose|s: int| #[trigger]
                        planned(old(arena).slots(), s, key) && diff_room(
                            old(arena).slots()[s].capacity as int,
                            inputs,
                            key,
                        );
                    arena.lemma_same_slots(*old(arena));
                    arena.lemma_slots();
                    assert(planned(arena.slots(), s, key));
                    assert(arena.key(s) == key);
                    if s < arena.next() {
                        assert(arena.key(s) < key);
                    }
                    assert(arena.next() <= s < arena.n() && arena.key(s) == key);
                }
                let l: ContainerRef = lhs.get();
                proof {
                    lemma_first(lhs.rest(), key, l.key);
                    assert(l.stored() == c0.stored(key));
                    assert(l.typ == c0.form(key));
                }
                let ghost l1 = lhs;
                lhs.advance();
                let ghost q0 = p1;
                let hit: bool = p1.advance_to(key);
                let p: Option<ContainerRef> = if hit {
                    proof {
                        lemma_first(p1.rest(), key, key);
                    }
                    let cr: ContainerRef = p1.get();
                    proof {
                        lemma_first(p1.rest(), key, cr.key);
                    }
                    Some(cr)
                } else {
                    None
                };
                proof {
                    lhs.lemma_chain(l1, c0);
                    lemma_first_lows(inputs, q0, p1, at, key);
                    if n > 1 {
                        lemma_sourced(q0, p1, inputs, 1);
                        lemma_tracks(q0, inputs.set_at(1), at, key);
                        let r = q0.rest();
                        assert forall|v: u16|
                            under(crate::model::since(r, key), key).contains(v) == under(
                                r,
                                key,
                            ).contains(v) by {
                            lemma_join(key, v);
                        }
                        assert(under(p1.rest(), key) =~= under(r, key));
                        assert(p1.stored(key) == inputs.stored_at(1, key));
                        assert(p1.form(key) == inputs.form_at(1, key));
                    }
                }
                let ghost b0 = *arena;
                let slot: usize = arena.claim_key(key);
                let ghost b1 = *arena;
                proof {
                    b1.lemma_same_slots(b0);
                    b0.lemma_slots();
                    lemma_diff_slot(inputs, b0.slots(), slot as int, key);
                    assert(b0.slots()[slot as int].capacity == b0.cap(slot as int));
                }
                diff_seed(arena, slot, &l, p, n == 2, Ghost(touched(inputs, key)));
                proof {
                    lemma_seeded_passing(inputs, *arena, slot as int, key, l, p);
                    lemma_seeding_next(b0, b1, *arena, inputs, key, slot as int);
                    arena.lemma_chain(b0, *old(arena));
                    at = key + 1;
                }
            },
        }
    }
}

/// A seeded slot is in form.
proof fn lemma_seeded_passing<I: Inputs + ?Sized>(
    inputs: &I,
    a: OpArena,
    s: int,
    key: u16,
    l: ContainerRef,
    p: Option<ContainerRef>,
)
    requires
        inputs.count() > 0,
        seeded_as(a, s, l, p, touched(inputs, key)),
        l.wf(),
        l.card == l.lows().len(),
        l.lows() == under(inputs.set_at(0), key),
        l.typ == inputs.form_at(0, key),
        l.stored() == inputs.stored_at(0, key),
        p is Some ==> inputs.count() > 1,
        p is None && inputs.count() > 1 ==> under(inputs.set_at(1), key).len() == 0,
        p matches Some(q) ==> {
            &&& q.wf()
            &&& q.card == q.lows().len()
            &&& q.lows() == under(inputs.set_at(1), key)
            &&& q.lows().len() > 0
            &&& q.typ == inputs.form_at(1, key)
            &&& q.stored() == inputs.stored_at(1, key)
        },
    ensures
        passing(inputs, key, first_pass(inputs), a.form(s), a.st(s).runs as int),
{
    if inputs.count() > 1 {
        match p {
            Some(q) => {
                lemma_pieces(inputs, key, 1, q);
            },
            None => {
                lemma_no_pieces(inputs, key, 1);
            },
        }
    }
    assert(l.typ == CT_RUN ==> weight(l) <= MAX_RUNS);
}

/// What the first subtrahend's cursor tells under a key of the first input.
proof fn lemma_first_lows<I: Inputs + ?Sized>(
    inputs: &I,
    before: ContainerCursor,
    after: ContainerCursor,
    at: int,
    key: u16,
)
    requires
        inputs.count() > 0,
        at <= key,
        inputs.count() > 1 ==> tracks(before, inputs.set_at(1), at),
        inputs.count() == 1 ==> before.rest() == Set::<u32>::empty(),
        after.wf(),
        after.rest() == crate::model::since(before.rest(), key),
    ensures
        inputs.count() > 1 ==> tracks(after, inputs.set_at(1), key + 1),
        inputs.count() == 1 ==> after.rest() == Set::<u32>::empty(),
        inputs.count() > 1 && under(before.rest(), key).len() > 0 ==> touched(inputs, key),
        under(difference_upto(inputs, first_pass(inputs)), key) == (if under(
            before.rest(),
            key,
        ).len() > 0 {
            under(inputs.set_at(0), key).difference(under(after.rest(), key))
        } else {
            under(inputs.set_at(0), key)
        }),
        inputs.count() == 1 ==> under(before.rest(), key).len() == 0,
{
    assert(difference_upto(inputs, 1) =~= inputs.set_at(0));
    if inputs.count() > 1 {
        lemma_tracks(before, inputs.set_at(1), at, key);
        lemma_tracks_on(before, after, inputs.set_at(1), at, key);
        lemma_upto_next(inputs, 1, key);
        let s = before.rest();
        assert forall|l: u16|
            under(crate::model::since(s, key), key).contains(l) == under(s, key).contains(l) by {
            lemma_join(key, l);
        }
        assert(under(after.rest(), key) =~= under(s, key));
    } else {
        assert(after.rest() =~= Set::<u32>::empty());
        assert(under(before.rest(), key) =~= Set::<u16>::empty());
    }
}

/// Every slot holds what the subtrahends before input `j` have left; for the slots before
/// `s`, what input `j` has left too.
spec fn held<I: Inputs + ?Sized>(a: OpArena, inputs: &I, j: int, s: int) -> bool {
    &&& a.wf()
    &&& a.double()
    &&& a.blocks() == Seq::<Block>::empty()
    &&& a.last_slot() == -1
    &&& forall|i: int| 0 <= i < s && i < a.n() ==> #[trigger] held_at(a, inputs, j + 1, i)
    &&& forall|i: int| 0 <= s <= i < a.n() ==> #[trigger] held_at(a, inputs, j, i)
}

/// Slot `s` took input `j`'s container, or had nothing to take.
proof fn lemma_held_next<I: Inputs + ?Sized>(
    before: OpArena,
    after: OpArena,
    inputs: &I,
    j: int,
    s: int,
)
    requires
        1 <= j < inputs.count(),
        held(before, inputs, j, s),
        0 <= s < before.n(),
        after == before || {
            &&& after.wf()
            &&& after.same_but(before, s)
        },
        held_at(after, inputs, j + 1, s),
    ensures
        held(after, inputs, j, s + 1),
{
    if after == before {
        assert forall|i: int| 0 <= i < s + 1 && i < after.n() implies #[trigger] held_at(
            after,
            inputs,
            j + 1,
            i,
        ) by {
            if i < s {
                assert(held_at(before, inputs, j + 1, i));
            }
        }
    } else {
        after.lemma_same_slots(before);
        assert forall|i: int| 0 <= i < s + 1 && i < after.n() implies #[trigger] held_at(
            after,
            inputs,
            j + 1,
            i,
        ) by {
            if i < s {
                assert(held_at(before, inputs, j + 1, i));
                assert(after.seeded(i) == before.seeded(i));
                assert(after.form(i) == before.form(i));
                assert(after.st(i) == before.st(i));
            }
        }
        assert forall|i: int| s + 1 <= i < after.n() implies #[trigger] held_at(after, inputs, j, i) by {
            assert(held_at(before, inputs, j, i));
            assert(after.seeded(i) == before.seeded(i));
            assert(after.form(i) == before.form(i));
            assert(after.st(i) == before.st(i));
        }
    }
}

/// Input `j` has nothing more to take from the slots from `s` on.
proof fn lemma_held_rest<I: Inputs + ?Sized>(a: OpArena, inputs: &I, j: int, s: int)
    requires
        1 <= j < inputs.count(),
        held(a, inputs, j, s),
        0 <= s <= a.n(),
        forall|i: int| s <= i < a.n() ==> under(inputs.set_at(j), #[trigger] a.key(i)).len() == 0,
    ensures
        held(a, inputs, j + 1, 0),
{
    assert forall|i: int| 0 <= i < a.n() implies #[trigger] held_at(a, inputs, j + 1, i) by {
        if i >= s {
            assert(held_at(a, inputs, j, i));
            lemma_upto_next(inputs, j, a.key(i));
            lemma_no_pieces(inputs, a.key(i), j);
        }
    }
}

/// Another subtrahend keeps the accumulator in form.
proof fn lemma_cut<I: Inputs + ?Sized>(
    inputs: &I,
    before: OpArena,
    after: OpArena,
    s: int,
    key: u16,
    j: int,
    p: ContainerRef,
)
    requires
        1 <= j < inputs.count(),
        p.wf(),
        p.card == p.lows().len(),
        p.lows() == under(inputs.set_at(j), key),
        p.lows().len() > 0,
        p.typ == inputs.form_at(j, key),
        p.stored() == inputs.stored_at(j, key),
        cut(before, after, s, p),
        after.acc(s).subset_of(before.acc(s)),
        before.acc(s).len() > 0 ==> passing(
            inputs,
            key,
            j,
            before.form(s),
            before.st(s).runs as int,
        ),
    ensures
        after.acc(s).len() > 0 ==> passing(
            inputs,
            key,
            j + 1,
            after.form(s),
            after.st(s).runs as int,
        ),
{
    lemma_pieces(inputs, key, j, p);
    lemma_upto_next(inputs, j, key);
    lemma_set16(before.acc(s));
    lemma_set16(after.acc(s));
    vstd::set_lib::lemma_len_subset(after.acc(s), before.acc(s));
}

/// Stream subtrahend `j` against the accumulators in the arena.
#[verifier::rlimit(40)]
fn diff_pass<I: Inputs + ?Sized>(arena: &mut OpArena, inputs: &I, j: usize, is_last: bool)
    requires
        inputs.ok(),
        1 <= j < inputs.count(),
        held(*old(arena), inputs, j as int, 0),
    ensures
        held(*final(arena), inputs, j + 1, 0),
        final(arena).same_slots(*old(arena)),
{
    let mut c: ContainerCursor = inputs.cursor(j);
    let ghost all = inputs.set_at(j as int);
    let ghost mut at: int = 0;
    let n: usize = arena.num_slots();
    let mut s: usize = 0;
    proof {
        arena.lemma_self();
    }
    while s < n
        invariant
            inputs.ok(),
            1 <= j < inputs.count(),
            all == inputs.set_at(j as int),
            tracks(c, all, at),
            sourced(c, inputs, j as int),
            n == arena.n(),
            s <= n,
            arena.same_slots(*old(arena)),
            held(*arena, inputs, j as int, s as int),
            forall|i: int| s <= i < n ==> at <= #[trigger] arena.key(i),
        decreases n - s,
    {
        let ghost a0 = *arena;
        proof {
            arena.lemma_slots();
            assert(held_at(a0, inputs, j as int, s as int));
            lemma_upto_next(inputs, j as int, a0.key(s as int));
            assert forall|i: int| s < i < n implies a0.key(s as int) + 1 <= #[trigger] a0.key(i) by {
                assert(a0.key(s as int) < a0.key(i));
            }
        }
        let st: SlotState = arena.state(s);
        if st.seeded() && st.card != 0 {
            if c.peek_key().is_none() {
                proof {
                    assert forall|i: int| s <= i < n implies under(all, #[trigger] a0.key(i)).len() == 0 by {
                        lemma_tracks(c, all, at, a0.key(i));
                        assert(under(c.rest(), a0.key(i)) =~= Set::<u16>::empty());
                    }
                    lemma_held_rest(*arena, inputs, j as int, s as int);
                }
                return;
            }
            let key: u16 = arena.planned_key(s);
            let ghost c0 = c;
            let hit: bool = c.advance_to(key);
            proof {
                lemma_tracks(c0, all, at, key);
                lemma_tracks_on(c0, c, all, at, key);
                lemma_sourced(c0, c, inputs, j as int);
                assert(c.stored(key) == inputs.stored_at(j as int, key));
                assert(c.form(key) == inputs.form_at(j as int, key));
                at = key + 1;
                let r = c0.rest();
                assert forall|l: u16|
                    under(crate::model::since(r, key), key).contains(l) == under(r, key).contains(l) by {
                    lemma_join(key, l);
                }
                assert(under(crate::model::since(r, key), key) =~= under(r, key));
            }
            if hit {
                proof {
                    lemma_first(c.rest(), key, key);
                }
                let p: ContainerRef = c.get();
                proof {
                    lemma_first(c.rest(), key, p.key);
                }
                diff_apply(arena, s, &p, is_last);
                proof {
                    arena.lemma_same_slots(a0);
                    arena.lemma_chain(a0, *old(arena));
                    lemma_cut(inputs, a0, *arena, s as int, key, j as int, p);
                }
            } else {
                proof {
                    lemma_no_pieces(inputs, key, j as int);
                }
            }
        }
        proof {
            lemma_held_next(a0, *arena, inputs, j as int, s as int);
            assert forall|i: int| s + 1 <= i < n implies at <= #[trigger] arena.key(i) by {
                assert(a0.key(s as int) + 1 <= a0.key(i));
                assert(at <= a0.key(s as int) + 1);
            }
        }
        s = s + 1;
    }
    proof {
        lemma_held_rest(*arena, inputs, j as int, n as int);
    }
}

/// Resolve deferred counts, turn sparse bitmaps into arrays, and record what is left.
#[verifier::rlimit(40)]
fn diff_finalize(
    arena: &mut OpArena,
    Ghost(t): Ghost<Set<u32>>,
    Ghost(ok): Ghost<spec_fn(u16, u8) -> bool>,
)
    requires
        old(arena).wf(),
        forall|s: int|
            0 <= s < old(arena).n() && #[trigger] old(arena).seeded(s) ==> finishes(
                *old(arena),
                s,
                ok,
            ),
        old(arena).blocks() == Seq::<Block>::empty(),
        old(arena).last_slot() == -1,
        forall|s: int|
            0 <= s < old(arena).n() ==> left(*old(arena), s, under(t, #[trigger] old(arena).key(s))),
        forall|k: u16| #[trigger] under(t, k).len() > 0 ==> exists|i: int|
            0 <= i < old(arena).n() && #[trigger] old(arena).key(i) == k,
    ensures
        final(arena).wf(),
        final(arena).same_slots(*old(arena)),
        final(arena).set() == t,
        formed(*final(arena), ok),
{
    let n: usize = arena.num_slots();
    let mut s: usize = 0;
    proof {
        lemma_recorded_start(*arena, t);
        arena.lemma_self();
        assert(formed(*arena, ok));
    }
    while s < n
        invariant
            s <= n,
            n == arena.n(),
            arena.same_slots(*old(arena)),
            recorded(*arena, t, s as int),
            formed(*arena, ok),
            forall|i: int|
                s <= i < arena.n() && #[trigger] arena.seeded(i) ==> finishes(*arena, i, ok),
            forall|i: int| s <= i < arena.n() ==> left(*arena, i, under(t, #[trigger] arena.key(i))),
        decreases n - s,
    {
        let ghost a0 = *arena;
        assert(left(a0, s as int, under(t, a0.key(s as int))));
        let st: SlotState = arena.state(s);
        if st.seeded() && st.card != 0 {
            match arena.load(s) {
                Data::Bitmap(b) => {
                    let card: u32 = if st.card == CARD_LAZY {
                        popcount(&*b)
                    } else {
                        st.card
                    };
                    let d: Data = finish_bitmap(b, card);
                    arena.put(s, &d);
                },
                _ => {
                    arena.record_acc(s);
                },
            }
        }
        proof {
            lemma_set16(under(t, a0.key(s as int)));
            if !(st.typ != crate::arena::UNSEEDED && st.card != 0) {
                a0.lemma_self();
            }
            arena.lemma_same_slots(a0);
            arena.lemma_chain(a0, *old(arena));
            lemma_recorded_next(a0, *arena, t, s as int, under(t, a0.key(s as int)));
            lemma_formed_put(
                a0,
                *arena,
                ok,
                a0.key(s as int),
                under(t, a0.key(s as int)),
                finished_form(a0, s as int),
            );
            assert forall|i: int| s + 1 <= i < arena.n() && #[trigger] arena.seeded(i) implies finishes(
                *arena,
                i,
                ok,
            ) by {
                assert(arena.seeded(i) == a0.seeded(i));
                assert(arena.form(i) == a0.form(i));
                assert(a0.key(i) == arena.key(i));
                assert(finishes(a0, i, ok));
            }
            assert forall|i: int| s + 1 <= i < arena.n() implies left(
                *arena,
                i,
                under(t, #[trigger] arena.key(i)),
            ) by {
                assert(a0.key(i) == arena.key(i));
                assert(left(a0, i, under(t, a0.key(i))));
                assert(arena.seeded(i) == a0.seeded(i));
            }
        }
        s = s + 1;
    }
    proof {
        arena.lemma_same_slots(*old(arena));
        assert forall|k: u16| #[trigger] under(t, k).len() > 0 implies exists|i: int|
            0 <= i < arena.n() && #[trigger] arena.key(i) == k by {
            let i = choose|i: int| 0 <= i < old(arena).n() && #[trigger] old(arena).key(i) == k;
            assert(arena.key(i) == k);
        }
        lemma_recorded_end(*arena, t);
    }
}

/// Form that slot `s`'s accumulator is recorded in.
spec fn finished_form(a: OpArena, s: int) -> u8 {
    if a.form(s) == CT_BITMAP {
        bitmap_form(a.acc(s).len())
    } else {
        a.form(s)
    }
}

/// What slot `s` holds, if anything, is recorded in a form that `ok` allows.
spec fn finishes(a: OpArena, s: int, ok: spec_fn(u16, u8) -> bool) -> bool {
    a.acc(s).len() > 0 ==> ok(a.key(s), finished_form(a, s))
}

/// The slot holds `lows`; where that is empty, it may hold nothing.
pub open spec fn left(a: OpArena, s: int, lows: Set<u16>) -> bool {
    if a.seeded(s) {
        a.acc(s) == lows
    } else {
        lows.len() == 0
    }
}

/// In form once all subtrahends are folded: in a form of the difference, once finished.
proof fn lemma_passing_end<I: Inputs + ?Sized>(inputs: &I, key: u16, form: u8, runs: int)
    requires
        inputs.count() > 0,
        passing(inputs, key, inputs.count() as int, form, runs),
        form <= CT_RUN,
    ensures
        diff_form(
            inputs,
            key,
            if form == CT_BITMAP {
                bitmap_form(under(difference_of(inputs), key).len())
            } else {
                form
            },
        ),
{
    if !touched(inputs, key) {
        lemma_untouched(inputs, key, inputs.count() as int);
    }
}

/// Partner-major difference.
#[verifier::rlimit(40)]
fn diff_fold_passes<I: Inputs + ?Sized>(arena: &mut OpArena, inputs: &I)
    requires
        inputs.ok(),
        inputs.count() > 0,
        fresh(*old(arena)),
        old(arena).double(),
        fits_diff(old(arena).slots(), inputs),
    ensures
        final(arena).wf(),
        final(arena).same_slots(*old(arena)),
        final(arena).set() == difference_of(inputs),
        formed(*final(arena), diff_forms(inputs)),
{
    let ghost ok = diff_forms(inputs);
    let n: usize = inputs.len();
    diff_first_pass(arena, inputs);
    proof {
        arena.lemma_slots();
        if n > 1 {
            assert forall|i: int| 0 <= i < arena.n() implies #[trigger] held_at(*arena, inputs, 2, i) by {
                assert(arena.key(i) < 65536);
            }
        }
    }
    let mut j: usize = 2;
    while j < n
        invariant
            inputs.ok(),
            n == inputs.count(),
            j >= 2,
            n > 1 ==> j <= n && held(*arena, inputs, j as int, 0),
            n == 1 ==> seeding(*arena, inputs, 65536),
            n > 0,
            arena.same_slots(*old(arena)),
        decreases n - j,
    {
        let ghost a0 = *arena;
        diff_pass(arena, inputs, j, j + 1 == n);
        proof {
            arena.lemma_chain(a0, *old(arena));
        }
        j = j + 1;
    }
    let ghost t = difference_of(inputs);
    let ghost a1 = *arena;
    proof {
        arena.lemma_same_slots(*old(arena));
        arena.lemma_slots();
        assert(difference_upto(inputs, n as int) =~= t);
        assert forall|s: int| 0 <= s < arena.n() implies left(
            *arena,
            s,
            under(t, #[trigger] arena.key(s)),
        ) by {
            assert(arena.key(s) < 65536);
            assert(held_at(*arena, inputs, n as int, s));
            if under(inputs.set_at(0), arena.key(s)).len() == 0 {
                lemma_diff_missing(inputs, arena.key(s));
            }
        }
        assert forall|s: int| 0 <= s < arena.n() && #[trigger] arena.seeded(s) implies finishes(
            *arena,
            s,
            ok,
        ) by {
            let key = arena.key(s);
            assert(key < 65536);
            assert(held_at(*arena, inputs, n as int, s));
            if arena.acc(s).len() > 0 {
                lemma_passing_end(inputs, key, arena.form(s), arena.st(s).runs as int);
            }
        }
        assert forall|k: u16| #[trigger] under(t, k).len() > 0 implies exists|i: int|
            0 <= i < arena.n() && #[trigger] arena.key(i) == k by {
            if under(inputs.set_at(0), k).len() == 0 {
                lemma_diff_missing(inputs, k);
            }
            assert(in_lhs(inputs, k));
            let q = choose|q: int| #[trigger]
                planned(old(arena).slots(), q, k) && diff_room(
                    old(arena).slots()[q].capacity as int,
                    inputs,
                    k,
                );
            assert(planned(arena.slots(), q, k));
            assert(arena.key(q) == k);
        }
    }
    diff_finalize(arena, Ghost(t), Ghost(ok));
    proof {
        arena.lemma_chain(a1, *old(arena));
    }
}

/// Fold `inputs` (DIFF) into a sized arena: partner-major while the accumulators stay
/// cache-resident, else key-major.
pub fn diff_fold<I: Inputs + ?Sized>(arena: &mut OpArena, inputs: &I)
    requires
        inputs.ok(),
        fresh(*old(arena)),
        fits_diff(old(arena).slots(), inputs),
    ensures
        final(arena).wf(),
        final(arena).same_slots(*old(arena)),
        final(arena).set() == difference_of(inputs),
        formed(*final(arena), diff_forms(inputs)),
{
    if inputs.len() == 0 {
        proof {
            arena.lemma_self();
            assert(arena.set() =~= difference_of(inputs));
        }
        return;
    }
    if arena.is_double() {
        diff_fold_passes(arena, inputs);
    } else {
        diff_fold_keys(arena, inputs);
    }
}

/// DIFF, folded into an arena left for the caller to fold further or to serialize.
pub fn diff_into<I: Inputs + ?Sized>(inputs: &I) -> (r: OpArena)
    requires
        inputs.ok(),
    ensures
        r.wf(),
        r.set() == difference_of(inputs),
        formed(r, diff_forms(inputs)),
{
    diff_into_buf(inputs, aligned_buf(0))
}

/// Fold into an arena in the memory of `buf`.
fn diff_into_buf<I: Inputs + ?Sized>(inputs: &I, buf: AlignedBuf) -> (r: OpArena)
    requires
        inputs.ok(),
    ensures
        r.wf(),
        r.set() == difference_of(inputs),
        formed(r, diff_forms(inputs)),
        buf_room(r.memory()) >= buf_room(buf),
{
    let plan: Plan = plan_diff(inputs);
    let mut arena: OpArena = OpArena::from_plan_in(&plan, buf);
    let ghost a0 = arena;
    diff_fold(&mut arena, inputs);
    proof {
        arena.lemma_same_slots(a0);
    }
    arena
}

/// DIFF in the memory of `buf`. Tiny inputs skip the capacity analysis.
pub(crate) fn diff_arena(views: &[FrozenBitmapView], buf: AlignedBuf) -> (r: OpArena)
    ensures
        r.wf(),
        r.set() == difference_of(views),
        formed(r, diff_forms(views)),
        buf_room(r.memory()) >= buf_room(buf),
{
    if views.len() > 0 && trivial(views, 0) {
        let plan: Plan = plan_trivial(Op::Diff, views, 0);
        let mut arena: OpArena = OpArena::from_plan_in(&plan, buf);
        let ghost a0 = arena;
        diff_fold(&mut arena, views);
        proof {
            arena.lemma_same_slots(a0);
        }
        return arena;
    }
    diff_into_buf(views, buf)
}

/// N-way difference (the first input minus the rest), in op-ready standard form. No inputs
/// give the empty set; a single input is copied.
pub fn diff(views: &[FrozenBitmapView]) -> (r: FrozenBitmap)
    ensures
        r.set() == difference_of(views),
        !inline_magic(r.src()),
        tidy(r.src()),
        snug(r.src()),
        slim(r.src()),
        forms_ok(r.src(), diff_forms(views)),
{
    let arena: OpArena = diff_arena(views, aligned_buf(0));
    let ghost a = arena;
    let r: FrozenBitmap = arena.serialize();
    proof {
        lemma_forms_fast(a, r.src(), diff_forms(views));
    }
    r
}

/// Like [`diff`], for storage: each block in its smallest form, so that the bytes are a
/// function of the values.
pub fn diff_compact(views: &[FrozenBitmapView]) -> (r: FrozenBitmap)
    ensures
        r.set() == difference_of(views),
        !inline_magic(r.src()),
        finished_standard(r.src(), difference_of(views)),
{
    let arena: OpArena = diff_arena(views, aligned_buf(0));
    let r: FrozenBitmap = encode_smallest(&arena, aligned_buf(0));
    proof {
        lemma_canonical_standard(r.src(), difference_of(views));
    }
    r
}

/// Like [`diff`], in memory from `p`. `None` where the budget refuses a buffer.
pub fn diff_in(views: &[FrozenBitmapView], p: &mut Buffers) -> (r: Option<FrozenBitmap>)
    requires
        old(p).wf(),
        old(p).arenas().out() < usize::MAX,
        old(p).results().out() < usize::MAX,
    ensures
        r matches Some(b) ==> {
            &&& b.set() == difference_of(views)
            &&& !inline_magic(b.src())
            &&& tidy(b.src())
            &&& snug(b.src())
            &&& slim(b.src())
            &&& forms_ok(b.src(), diff_forms(views))
        },
        folded_once(*old(p), *final(p), r),
{
    let buf: AlignedBuf = match borrow_buf(p) {
        None => {
            return None;
        },
        Some(buf) => buf,
    };
    let ghost buf0 = buf;
    let arena: OpArena = diff_arena(views, buf);
    let ghost a = arena;
    let r: FrozenBitmap = arena.serialize();
    proof {
        lemma_forms_fast(a, r.src(), diff_forms(views));
    }
    let ghost mid = *p;
    swap_out(p);
    proof {
        assert(taken(old(p).arenas(), mid.arenas(), buf0));
        assert(swapped(*old(p), mid.arenas(), *p));
    }
    Some(r)
}

/// Like [`diff_compact`], in memory from `p`. `None` where the budget refuses a buffer.
pub fn diff_compact_in(views: &[FrozenBitmapView], p: &mut Buffers) -> (r: Option<FrozenBitmap>)
    requires
        old(p).wf(),
        old(p).arenas().out() < usize::MAX,
        old(p).results().out() < usize::MAX,
    ensures
        r matches Some(b) ==> {
            &&& b.set() == difference_of(views)
            &&& !inline_magic(b.src())
            &&& finished_standard(b.src(), difference_of(views))
        },
        stored_once(*old(p), *final(p), r),
{
    let buf: AlignedBuf = match borrow_buf(p) {
        None => {
            return None;
        },
        Some(buf) => buf,
    };
    let ghost (mid, buf0) = (*p, buf);
    let arena: OpArena = diff_arena(views, buf);
    let out: AlignedBuf = result_buf(p);
    let r: FrozenBitmap = encode_smallest(&arena, out);
    let back: AlignedBuf = arena.into_buf();
    give_buf(p, back);
    proof {
        lemma_canonical_standard(r.src(), difference_of(views));
        assert(taken(old(p).results(), p.results(), out));
        assert(given(mid.arenas(), p.arenas(), back, old(p).limits().buffers));
        assert(taken(old(p).arenas(), mid.arenas(), buf0));
    }
    Some(r)
}

} // verus!
