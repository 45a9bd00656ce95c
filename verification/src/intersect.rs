//! N-way intersection (AND).
use vstd::prelude::*;

use crate::accum::{
    array_fold, bitmap_and_count, bitmap_form, finish_bitmap, fold_set, lemma_fold_mono,
    lemma_fold_next, lemma_fold_none, lemma_weights, lemma_weights_head, load_bitmap, run_fold,
    weight, weights, Merge,
};
use crate::arena::OpArena;
use crate::bitmap::FrozenBitmap;
use crate::buffer::{aligned_buf, buf_room, AlignedBuf};
use crate::canon::{finished_standard, lemma_canonical_standard};
use crate::container::{Bitmap, Data};
use crate::cursor::{ContainerCursor, ContainerRef};
use crate::decide::shrink_cap_spec;
use crate::encode::encode_smallest;
use crate::fold::{
    folding, formed, forms_ok, fresh, lemma_folding_put, lemma_folding_skip,
    lemma_folding_start, lemma_formed_put, lemma_forms_fast, lemma_unclaimed,
    trivial,
};
use crate::format::{inline_magic, ARRAY_MAX_SIZE, CT_ARRAY, CT_RUN, MAX_RUNS};
use crate::frozen::{slim, snug, tidy};
use crate::memory::{
    borrow_buf, folded_once, give_buf, given, result_buf, stored_once, swap_out, swapped, taken,
    Buffers,
};
use crate::model::{
    join, lemma_onward, lemma_onward_none, lemma_set16, lemma_sum_order, onward, sum_at, sum_to,
    under, upto,
};
use crate::plan::{
    and_room, fits_and, in_all, intersection_of, plan_intersect, plan_trivial, planned, Op, Plan,
};
use crate::source::Inputs;
use crate::view::FrozenBitmapView;
use crate::walk::{
    all_under, fewest, gather_all, is_ref, lemma_first, lemma_same_refs, lemma_sourced, lemma_tracks,
    lemma_tracks_on, open_others, refs_all, refs_ok, same_refs, sort_by_card, sourced, swap_refs,
    tracks,
};
use crate::words::bits_set;
use vstd::slice::slice_subrange;

verus! {

/// Put the smallest container first; wide, skewed folds are sorted by cardinality, so
/// that the accumulator shrinks before the expensive partners arrive.
fn seed_first(refs: &mut Vec<ContainerRef>)
    requires
        refs_ok(old(refs)@),
        old(refs).len() > 0,
    ensures
        same_refs(final(refs)@, old(refs)@),
        forall|i: int| 0 <= i < final(refs).len() ==> final(refs)@[0].card <= (#[trigger] final(refs)@[i]).card,
{
    let n: usize = refs.len();
    let mut seed: usize = 0;
    let mut max_card: u32 = refs[0].card;
    let mut i: usize = 1;
    while i < n
        invariant
            n == refs.len(),
            1 <= i <= n,
            seed < i,
            forall|k: int| 0 <= k < i ==> refs@[seed as int].card <= (#[trigger] refs@[k]).card,
        decreases n - i,
    {
        let c: u32 = refs[i].card;
        if c < refs[seed].card {
            seed = i;
        }
        if c > max_card {
            max_card = c;
        }
        i = i + 1;
    }
    if n >= 5 && max_card / 2 >= refs[seed].card {
        sort_by_card(refs);
    } else {
        swap_refs(refs, 0, seed);
    }
}

/// Runs in all, if every container is run-encoded and they stay under the run ceiling.
fn run_total(refs: &Vec<ContainerRef>) -> (r: Option<usize>)
    requires
        refs_ok(refs@),
    ensures
        r is Some <==> few_runs(refs@),
        r matches Some(n) ==> n == weights(refs@, refs.len() as int),
{
    let mut total: usize = 0;
    let mut i: usize = 0;
    while i < refs.len()
        invariant
            refs_ok(refs@),
            i <= refs.len(),
            total == weights(refs@, i as int),
            total <= MAX_RUNS,
            forall|k: int| 0 <= k < i ==> (#[trigger] refs@[k]).typ == CT_RUN,
        decreases refs.len() - i,
    {
        assert(refs@[i as int].wf());
        if refs[i].typ != CT_RUN {
            return None;
        }
        total = total + refs[i].num_runs();
        if total > MAX_RUNS {
            proof {
                lemma_weights(refs@, i + 1, refs.len() as int);
            }
            return None;
        }
        i = i + 1;
    }
    Some(total)
}

proof fn lemma_head(refs: Seq<ContainerRef>)
    requires
        refs.len() > 0,
    ensures
        fold_set(refs[0].lows(), refs.skip(1), Merge::And) == refs_all(refs),
        weights(refs, refs.len() as int) == weight(refs[0]) + weights(
            refs.skip(1),
            refs.len() - 1,
        ),
{
    let rest = refs.skip(1);
    let s = refs[0].lows();
    assert forall|l: u16| fold_set(s, rest, Merge::And).contains(l) == refs_all(refs).contains(l) by {
        if fold_set(s, rest, Merge::And).contains(l) {
            assert forall|i: int| 0 <= i < refs.len() implies (#[trigger] refs[i]).lows().contains(l) by {
                if i > 0 {
                    assert(rest[i - 1] == refs[i]);
                }
            }
        }
        if refs_all(refs).contains(l) {
            assert forall|i: int| 0 <= i < rest.len() implies (#[trigger] rest[i]).lows().contains(l) by {
                assert(refs[i + 1] == rest[i]);
            }
        }
    }
    assert(fold_set(s, rest, Merge::And) =~= refs_all(refs));
    lemma_weights_head(refs, refs.len() as int);
}

/// Every container is run-encoded, and they stay under the run ceiling.
spec fn few_runs(refs: Seq<ContainerRef>) -> bool {
    &&& weights(refs, refs.len() as int) <= MAX_RUNS
    &&& forall|i: int| 0 <= i < refs.len() ==> (#[trigger] refs[i]).typ == CT_RUN
}

/// Form of an AND of `refs` that leaves `n` values: an array where some container is small
/// enough for one, runs where there are few and nothing else, and otherwise what a bitmap
/// finishes as.
spec fn and_form(refs: Seq<ContainerRef>, n: nat) -> u8 {
    if exists|i: int| 0 <= i < refs.len() && (#[trigger] refs[i]).card <= ARRAY_MAX_SIZE {
        CT_ARRAY
    } else if few_runs(refs) {
        CT_RUN
    } else {
        bitmap_form(n)
    }
}

/// The form does not depend on the order.
proof fn lemma_and_form(a: Seq<ContainerRef>, b: Seq<ContainerRef>, n: nat)
    requires
        same_refs(a, b),
    ensures
        and_form(a, n) == and_form(b, n),
{
    lemma_same_refs(a, b);
    if few_runs(a) {
        assert forall|i: int| 0 <= i < b.len() implies (#[trigger] b[i]).typ == CT_RUN by {
            assert(a.contains(b[i]));
            let k = choose|k: int| 0 <= k < a.len() && a[k] == b[i];
            assert(a[k].typ == CT_RUN);
        }
    }
    if few_runs(b) {
        assert forall|i: int| 0 <= i < a.len() implies (#[trigger] a[i]).typ == CT_RUN by {
            assert(b.contains(a[i]));
            let k = choose|k: int| 0 <= k < b.len() && b[k] == a[i];
            assert(b[k].typ == CT_RUN);
        }
    }
    if exists|i: int| 0 <= i < a.len() && (#[trigger] a[i]).card <= ARRAY_MAX_SIZE {
        let i = choose|i: int| 0 <= i < a.len() && (#[trigger] a[i]).card <= ARRAY_MAX_SIZE;
        assert(b.contains(a[i]));
        let k = choose|k: int| 0 <= k < b.len() && b[k] == a[i];
        assert(b[k].card <= ARRAY_MAX_SIZE);
    }
    if exists|i: int| 0 <= i < b.len() && (#[trigger] b[i]).card <= ARRAY_MAX_SIZE {
        let i = choose|i: int| 0 <= i < b.len() && (#[trigger] b[i]).card <= ARRAY_MAX_SIZE;
        assert(a.contains(b[i]));
        let k = choose|k: int| 0 <= k < a.len() && a[k] == b[i];
        assert(a[k].card <= ARRAY_MAX_SIZE);
    }
}

/// AND at one key. The smallest container fixes the accumulator for the whole fold: an
/// array while it fits, runs where every container has them, else a bitmap; it never
/// outgrows the slot.
#[verifier::rlimit(40)]
fn intersect_key(refs: &mut Vec<ContainerRef>) -> (r: Data)
    requires
        refs_ok(old(refs)@),
        old(refs).len() > 0,
    ensures
        r.wf(),
        r.set() == refs_all(old(refs)@),
        r.spec_typ() == and_form(old(refs)@, r.set().len()),
        r matches Data::Run(v) ==> v.len() <= MAX_RUNS,
        forall|i: int|
            0 <= i < old(refs).len() ==> r.spec_bytes() <= shrink_cap_spec(
                (#[trigger] old(refs)@[i]).card as int,
            ),
{
    seed_first(refs);
    proof {
        lemma_same_refs(refs@, old(refs)@);
        lemma_same_refs(old(refs)@, refs@);
        lemma_and_form(refs@, old(refs)@, refs_all(old(refs)@).len());
        lemma_head(refs@);
        assert forall|i: int| 0 <= i < old(refs).len() implies refs@[0].card <= (#[trigger] old(refs)@[i]).card by {
            assert(refs@.contains(old(refs)@[i]));
            let k = choose|k: int| 0 <= k < refs@.len() && refs@[k] == old(refs)@[i];
            assert(refs@[0].card <= refs@[k].card);
        }
    }
    let n: usize = refs.len();
    let seed: ContainerRef = refs[0];
    assert(refs@[0].wf());
    let rest: &[ContainerRef] = slice_subrange(refs.as_slice(), 1, n);
    assert(rest@ =~= refs@.skip(1));
    assert(refs_ok(rest@)) by {
        assert forall|i: int| 0 <= i < rest@.len() implies (#[trigger] rest@[i]).wf() && rest@[i].card
            == rest@[i].lows().len() by {
            assert(refs@[i + 1] == rest@[i]);
        }
    }
    if seed.card as usize <= ARRAY_MAX_SIZE {
        let r: Data = array_fold(&seed, rest, seed.card as usize, Merge::And);
        return r;
    }
    match run_total(refs) {
        Some(_) => {
            assert forall|i: int| 0 <= i < rest@.len() implies (#[trigger] rest@[i]).typ == CT_RUN by {
                assert(refs@[i + 1] == rest@[i]);
            }
            return run_fold(&seed, rest, Merge::And);
        },
        None => {},
    }
    // Count as it folds, and stop once it runs empty.
    let mut acc: Box<Bitmap> = load_bitmap(seed.typed());
    let mut card: u32 = seed.card;
    let ghost s = seed.lows();
    let m: usize = rest.len();
    let mut i: usize = 0;
    proof {
        lemma_fold_none(s, rest@, Merge::And);
    }
    while i < m && card > 0
        invariant
            i <= m,
            m == rest.len(),
            refs_ok(rest@),
            bits_set((*acc)@) == fold_set(s, rest@.take(i as int), Merge::And),
            card == bits_set((*acc)@).len(),
        decreases m - i,
    {
        assert(rest@[i as int].wf());
        card = bitmap_and_count(&mut *acc, rest[i].typed());
        proof {
            lemma_fold_next(s, rest@, i as int, Merge::And);
        }
        i = i + 1;
    }
    proof {
        lemma_fold_mono(s, rest@, i as int, Merge::And);
        assert(rest@.take(m as int) =~= rest@);
    }
    finish_bitmap(acc, card)
}

/// Runs of input `i` under `key`.
pub open spec fn runs_of<I: Inputs + ?Sized>(inputs: &I, key: u16) -> spec_fn(int) -> int {
    |i: int| (inputs.stored_at(i, key) - 2) / 4
}

/// Form of the AND of `inputs` under `key`: an array where some input has few enough values
/// for one, runs where every input has runs and they are few, and otherwise what a bitmap
/// finishes as.
pub open spec fn and_form_at<I: Inputs + ?Sized>(inputs: &I, key: u16) -> u8 {
    let n = inputs.count() as int;
    if exists|i: int| 0 <= i < n && under(#[trigger] inputs.set_at(i), key).len() <= ARRAY_MAX_SIZE {
        CT_ARRAY
    } else if sum_to(runs_of(inputs, key), n) <= MAX_RUNS && forall|i: int|
        0 <= i < n ==> #[trigger] inputs.form_at(i, key) == CT_RUN {
        CT_RUN
    } else {
        bitmap_form(under(intersection_of(inputs), key).len())
    }
}

/// The forms of an AND.
pub open spec fn and_forms<I: Inputs + ?Sized>(inputs: &I) -> spec_fn(u16, u8) -> bool {
    |key: u16, typ: u8| typ == and_form_at(inputs, key)
}

/// The first `n` containers have the runs of the inputs that `p` lists.
proof fn lemma_runs_at<I: Inputs + ?Sized>(
    inputs: &I,
    key: u16,
    refs: Seq<ContainerRef>,
    p: Seq<int>,
    n: int,
)
    requires
        0 <= n <= refs.len() == p.len(),
        forall|k: int|
            0 <= k < refs.len() ==> (#[trigger] refs[k]).typ == CT_RUN && refs[k].stored()
                == inputs.stored_at(p[k], key),
    ensures
        weights(refs, n) == sum_at(runs_of(inputs, key), p.take(n)),
    decreases n,
{
    if n > 0 {
        lemma_runs_at(inputs, key, refs, p, n - 1);
        assert(p.take(n).drop_last() =~= p.take(n - 1));
        assert(refs[n - 1].typ == CT_RUN);
    } else {
        assert(p.take(0).len() == 0);
    }
}

/// The form of the containers of all inputs under a key, in whatever order.
#[verifier::rlimit(40)]
proof fn lemma_and_form_at<I: Inputs + ?Sized>(
    inputs: &I,
    key: u16,
    refs: Seq<ContainerRef>,
    p: Seq<int>,
)
    requires
        refs_ok(refs),
        refs.len() == p.len(),
        p.no_duplicates(),
        forall|k: int| 0 <= k < p.len() ==> 0 <= #[trigger] p[k] < inputs.count(),
        forall|i: int| 0 <= i < inputs.count() ==> #[trigger] p.contains(i),
        forall|k: int|
            0 <= k < refs.len() ==> (#[trigger] refs[k]).lows() == under(inputs.set_at(p[k]), key)
                && refs[k].typ == inputs.form_at(p[k], key) && refs[k].stored()
                == inputs.stored_at(p[k], key),
    ensures
        and_form(refs, under(intersection_of(inputs), key).len()) == and_form_at(inputs, key),
{
    let n = inputs.count() as int;
    if exists|i: int| 0 <= i < refs.len() && (#[trigger] refs[i]).card <= ARRAY_MAX_SIZE {
        let i = choose|i: int| 0 <= i < refs.len() && (#[trigger] refs[i]).card <= ARRAY_MAX_SIZE;
        assert(under(inputs.set_at(p[i]), key).len() <= ARRAY_MAX_SIZE);
    }
    if exists|i: int| 0 <= i < n && under(#[trigger] inputs.set_at(i), key).len() <= ARRAY_MAX_SIZE {
        let i = choose|i: int|
            0 <= i < n && under(#[trigger] inputs.set_at(i), key).len() <= ARRAY_MAX_SIZE;
        assert(p.contains(i));
        let k = choose|k: int| 0 <= k < p.len() && p[k] == i;
        assert(refs[k].card <= ARRAY_MAX_SIZE);
    }
    let all = forall|i: int| 0 <= i < n ==> #[trigger] inputs.form_at(i, key) == CT_RUN;
    let runs = forall|i: int| 0 <= i < refs.len() ==> (#[trigger] refs[i]).typ == CT_RUN;
    assert(all == runs) by {
        if all {
            assert forall|k: int| 0 <= k < refs.len() implies (#[trigger] refs[k]).typ == CT_RUN by {
                assert(0 <= p[k] < n);
                assert(inputs.form_at(p[k], key) == CT_RUN);
            }
        }
        if runs {
            assert forall|i: int| 0 <= i < n implies #[trigger] inputs.form_at(i, key) == CT_RUN by {
                assert(p.contains(i));
                let k = choose|k: int| 0 <= k < p.len() && p[k] == i;
                assert(refs[k].typ == CT_RUN);
            }
        }
    }
    if runs {
        lemma_runs_at(inputs, key, refs, p, refs.len() as int);
        assert(p.take(p.len() as int) =~= p);
        lemma_sum_order(runs_of(inputs, key), p, n);
    }
}

/// The intersection under a key that every input has.
proof fn lemma_under_all_inputs<I: Inputs + ?Sized>(inputs: &I, key: u16, l: u16)
    requires
        inputs.count() > 0,
    ensures
        under(intersection_of(inputs), key).contains(l) <==> forall|i: int|
            0 <= i < inputs.count() ==> under(#[trigger] inputs.set_at(i), key).contains(l),
{
    let v = join(key, l);
    let t = intersection_of(inputs);
    if t.contains(v) {
        assert forall|i: int| 0 <= i < inputs.count() implies under(
            #[trigger] inputs.set_at(i),
            key,
        ).contains(l) by {}
    }
    if forall|i: int|
        0 <= i < inputs.count() ==> under(#[trigger] inputs.set_at(i), key).contains(l) {
        assert forall|i: int| 0 <= i < inputs.count() implies (#[trigger] inputs.set_at(i)).contains(v) by {
            assert(under(inputs.set_at(i), key).contains(l));
        }
    }
}

/// The intersection has nothing under a key that some input lacks.
proof fn lemma_under_missing<I: Inputs + ?Sized>(inputs: &I, key: u16)
    requires
        inputs.count() > 0,
        !in_all(inputs, key),
    ensures
        under(intersection_of(inputs), key).len() == 0,
{
    let i = choose|i: int| 0 <= i < inputs.count() && under(#[trigger] inputs.set_at(i), key).len() == 0;
    let t = under(intersection_of(inputs), key);
    lemma_set16(under(inputs.set_at(i), key));
    assert(under(inputs.set_at(i), key) =~= Set::<u16>::empty());
    assert forall|l: u16| !t.contains(l) by {
        lemma_under_all_inputs(inputs, key, l);
        assert(!under(inputs.set_at(i), key).contains(l));
    }
    assert(t =~= Set::<u16>::empty());
}

/// Fold `inputs` (AND) into a sized arena. Only the keys of the narrowest input are
/// visited, the others being skipped to each, so a selective conjunct never forces a full
/// walk of the large inputs.
#[verifier::rlimit(40)]
pub fn intersect_fold<I: Inputs + ?Sized>(arena: &mut OpArena, inputs: &I)
    requires
        inputs.ok(),
        fresh(*old(arena)),
        fits_and(old(arena).slots(), inputs),
    ensures
        final(arena).wf(),
        final(arena).same_slots(*old(arena)),
        final(arena).set() == intersection_of(inputs),
        formed(*final(arena), and_forms(inputs)),
{
    let ghost t = intersection_of(inputs);
    let ghost ok = and_forms(inputs);
    proof {
        lemma_folding_start(*arena, t);
        arena.lemma_self();
        assert(formed(*arena, ok));
    }
    // No slot: the plan has shown the result empty.
    if inputs.len() == 0 || arena.num_slots() == 0 {
        proof {
            assert forall|k: u16| #[trigger] under(t, k).len() == 0 by {
                if inputs.count() == 0 {
                    assert(under(t, k) =~= Set::<u16>::empty());
                } else {
                    if in_all(inputs, k) {
                        let s = choose|s: int| #[trigger] planned(arena.slots(), s, k) && and_room(
                            arena.slots()[s].capacity as int,
                            inputs,
                            k,
                        );
                        assert(planned(arena.slots(), s, k));
                    }
                    lemma_under_missing(inputs, k);
                }
            }
            lemma_folding_skip(*arena, t, 0, 65536);
            assert(upto(t, 65536) =~= t);
        }
        return;
    }
    let seed: usize = fewest(inputs);
    let mut driver: ContainerCursor = inputs.cursor(seed);
    let (mut others, Ghost(order)) = open_others(inputs, seed);
    let n: usize = others.len();
    let ghost all = inputs.set_at(seed as int);
    let ghost mut at: int = 0;
    proof {
        assert(onward(all, 0) =~= all);
        assert forall|j: int| 0 <= j < n implies 0 <= #[trigger] order[j] < inputs.count() by {
            assert(others@[j].wf());
        }
    }
    loop
        invariant
            inputs.ok(),
            seed < inputs.count(),
            all == inputs.set_at(seed as int),
            t == intersection_of(inputs),
            ok == and_forms(inputs),
            formed(*arena, ok),
            sourced(driver, inputs, seed as int),
            order.no_duplicates(),
            forall|j: int| 0 <= j < n ==> #[trigger] order[j] != seed,
            forall|j: int| 0 <= j < n ==> sourced(#[trigger] others@[j], inputs, order[j]),
            arena.same_slots(*old(arena)),
            fits_and(old(arena).slots(), inputs),
            folding(*arena, t, at),
            driver.wf(),
            driver.rest() == onward(all, at),
            others.len() == n,
            order.len() == n,
            forall|j: int| 0 <= j < n ==> 0 <= #[trigger] order[j] < inputs.count(),
            forall|i: int| 0 <= i < inputs.count() && i != seed ==> #[trigger] order.contains(i),
            forall|j: int|
                0 <= j < n ==> tracks(#[trigger] others@[j], inputs.set_at(order[j]), at),
        decreases driver.left(),
    {
        match driver.peek_key() {
            None => {
                proof {
                    lemma_onward_none(all, at);
                    if at < 65536 {
                        assert forall|k: u16| at <= k < 65536 implies #[trigger] under(t, k).len() == 0 by {
                            assert(under(inputs.set_at(seed as int), k).len() == 0);
                            lemma_under_missing(inputs, k);
                        }
                        lemma_folding_skip(*arena, t, at, 65536);
                        assert(upto(t, 65536) =~= t);
                    } else {
                        assert(upto(t, at) =~= t);
                    }
                }
                return;
            },
            Some(key) => {
                proof {
                    lemma_onward(all, at, key);
                    assert forall|k: u16| at <= k < key implies #[trigger] under(t, k).len() == 0 by {
                        assert(under(inputs.set_at(seed as int), k).len() == 0);
                        lemma_under_missing(inputs, k);
                    }
                }
                let cr: ContainerRef = driver.get();
                let ghost d0 = driver;
                proof {
                    lemma_first(driver.rest(), key, cr.key);
                    assert(driver.stored(key) == inputs.stored_at(seed as int, key));
                    assert(driver.form(key) == inputs.form_at(seed as int, key));
                }
                driver.advance();
                proof {
                    lemma_sourced(d0, driver, inputs, seed as int);
                }
                let mut refs: Vec<ContainerRef> = Vec::new();
                refs.push(cr);
                let ghost before = others@;
                let present: bool = gather_all(&mut others, key, &mut refs);
                proof {
                    assert forall|j: int| 0 <= j < n implies under((#[trigger] before[j]).rest(), key)
                        == under(inputs.set_at(order[j]), key) && tracks(
                        others@[j],
                        inputs.set_at(order[j]),
                        key + 1,
                    ) by {
                        lemma_tracks(before[j], inputs.set_at(order[j]), at, key);
                        lemma_tracks_on(before[j], others@[j], inputs.set_at(order[j]), at, key);
                    }
                    assert forall|j: int| 0 <= j < n implies tracks(
                        #[trigger] others@[j],
                        inputs.set_at(order[j]),
                        key + 1,
                    ) by {
                        assert(before[j].wf());
                    }
                    assert forall|j: int| 0 <= j < n implies sourced(
                        #[trigger] others@[j],
                        inputs,
                        order[j],
                    ) by {
                        assert(sourced(before[j], inputs, order[j]));
                        lemma_sourced(before[j], others@[j], inputs, order[j]);
                    }
                    lemma_present(inputs, seed as int, order, before, key, present);
                }
                if present {
                    let ghost r0 = refs@;
                    proof {
                        assert(refs@[0] == cr);
                        lemma_common(inputs, seed as int, order, before, key, r0);
                        lemma_gathered_form(inputs, seed as int, order, before, key, r0);
                        let s = choose|s: int| #[trigger]
                            planned(old(arena).slots(), s, key) && and_room(
                                old(arena).slots()[s].capacity as int,
                                inputs,
                                key,
                            );
                        arena.lemma_same_slots(*old(arena));
                        assert(planned(arena.slots(), s, key));
                        lemma_unclaimed(*arena, t, at, key, s);
                        assert(arena.next() <= s < arena.n() && arena.key(s) == key);
                    }
                    let ghost a0 = *arena;
                    let slot: usize = arena.claim_key(key);
                    let ghost a1 = *arena;
                    let data: Data = intersect_key(&mut refs);
                    proof {
                        a0.lemma_slots();
                        a1.lemma_same_slots(a0);
                        lemma_room(inputs, a0.slots(), slot as int, seed as int, order, before, key, r0, data.spec_bytes());
                    }
                    arena.put(slot, &data);
                    proof {
                        arena.lemma_chain(a1, a0);
                        arena.lemma_chain(a0, *old(arena));
                        lemma_folding_put(a0, *arena, slot as int, t, at, key, data.set());
                        lemma_formed_put(a0, *arena, ok, key, data.set(), data.spec_typ());
                    }
                } else {
                    proof {
                        lemma_under_missing(inputs, key);
                        lemma_folding_skip(*arena, t, at, key + 1);
                    }
                }
                proof {
                    at = key + 1;
                }
            },
        }
    }
}

/// The form of what was gathered from the driver and the others.
#[verifier::rlimit(40)]
proof fn lemma_gathered_form<I: Inputs + ?Sized>(
    inputs: &I,
    seed: int,
    order: Seq<int>,
    before: Seq<ContainerCursor>,
    key: u16,
    refs: Seq<ContainerRef>,
)
    requires
        0 <= seed < inputs.count(),
        order.len() == before.len(),
        order.no_duplicates(),
        forall|j: int| 0 <= j < order.len() ==> 0 <= #[trigger] order[j] < inputs.count(),
        forall|j: int| 0 <= j < order.len() ==> #[trigger] order[j] != seed,
        forall|i: int| 0 <= i < inputs.count() && i != seed ==> #[trigger] order.contains(i),
        forall|j: int|
            0 <= j < before.len() ==> under((#[trigger] before[j]).rest(), key) == under(
                inputs.set_at(order[j]),
                key,
            ) && sourced(before[j], inputs, order[j]),
        refs_ok(refs),
        refs.len() == before.len() + 1,
        refs[0].lows() == under(inputs.set_at(seed), key),
        refs[0].typ == inputs.form_at(seed, key),
        refs[0].stored() == inputs.stored_at(seed, key),
        forall|j: int| 0 <= j < before.len() ==> is_ref(refs[1 + j], #[trigger] before[j], key),
    ensures
        and_form(refs, under(intersection_of(inputs), key).len()) == and_form_at(inputs, key),
{
    let p = seq![seed] + order;
    assert forall|k: int| 0 <= k < refs.len() implies (#[trigger] refs[k]).lows() == under(
        inputs.set_at(p[k]),
        key,
    ) && refs[k].typ == inputs.form_at(p[k], key) && refs[k].stored() == inputs.stored_at(p[k], key)
        && 0 <= p[k] < inputs.count() by {
        if k > 0 {
            let c = before[k - 1];
            assert(p[k] == order[k - 1]);
            assert(is_ref(refs[1 + (k - 1)], c, key));
            assert(c.stored(key) == inputs.stored_at(p[k], key));
            assert(c.form(key) == inputs.form_at(p[k], key));
        }
    }
    assert forall|i: int, j: int| 0 <= i < p.len() && 0 <= j < p.len() && i != j implies p[i]
        != p[j] by {
        if i > 0 {
            assert(p[i] == order[i - 1]);
        }
        if j > 0 {
            assert(p[j] == order[j - 1]);
        }
    }
    assert forall|k: int| 0 <= k < p.len() implies 0 <= #[trigger] p[k] < inputs.count() by {
        assert(refs[k].wf());
    }
    assert forall|i: int| 0 <= i < inputs.count() implies #[trigger] p.contains(i) by {
        if i == seed {
            assert(p[0] == i);
        } else {
            assert(order.contains(i));
            let j = choose|j: int| 0 <= j < order.len() && order[j] == i;
            assert(p[1 + j] == i);
        }
    }
    lemma_and_form_at(inputs, key, refs, p);
}

/// All the others having something under `key` makes it a key of every input.
proof fn lemma_present<I: Inputs + ?Sized>(
    inputs: &I,
    seed: int,
    order: Seq<int>,
    before: Seq<ContainerCursor>,
    key: u16,
    present: bool,
)
    requires
        0 <= seed < inputs.count(),
        under(inputs.set_at(seed), key).len() > 0,
        order.len() == before.len(),
        forall|j: int| 0 <= j < order.len() ==> 0 <= #[trigger] order[j] < inputs.count(),
        forall|i: int| 0 <= i < inputs.count() && i != seed ==> #[trigger] order.contains(i),
        forall|j: int|
            0 <= j < before.len() ==> under((#[trigger] before[j]).rest(), key) == under(
                inputs.set_at(order[j]),
                key,
            ),
        present == all_under(before, key),
    ensures
        in_all(inputs, key) == present,
{
    if present {
        assert forall|i: int| 0 <= i < inputs.count() implies under(
            #[trigger] inputs.set_at(i),
            key,
        ).len() > 0 by {
            if i != seed {
                assert(order.contains(i));
                let j = choose|j: int| 0 <= j < order.len() && order[j] == i;
                assert(under(before[j].rest(), key).len() > 0);
            }
        }
    } else {
        let j = choose|j: int|
            0 <= j < before.len() && under((#[trigger] before[j]).rest(), key).len() == 0;
        assert(under(inputs.set_at(order[j]), key).len() == 0);
    }
}

/// What the gathered containers have in common is the intersection under the key.
proof fn lemma_common<I: Inputs + ?Sized>(
    inputs: &I,
    seed: int,
    order: Seq<int>,
    before: Seq<ContainerCursor>,
    key: u16,
    refs: Seq<ContainerRef>,
)
    requires
        0 <= seed < inputs.count(),
        order.len() == before.len(),
        forall|j: int| 0 <= j < order.len() ==> 0 <= #[trigger] order[j] < inputs.count(),
        forall|i: int| 0 <= i < inputs.count() && i != seed ==> #[trigger] order.contains(i),
        forall|j: int|
            0 <= j < before.len() ==> under((#[trigger] before[j]).rest(), key) == under(
                inputs.set_at(order[j]),
                key,
            ),
        refs.len() == before.len() + 1,
        refs[0].lows() == under(inputs.set_at(seed), key),
        forall|j: int|
            0 <= j < before.len() ==> refs[1 + j].lows() == under((#[trigger] before[j]).rest(), key),
    ensures
        refs_all(refs) == under(intersection_of(inputs), key),
{
    assert forall|l: u16| refs_all(refs).contains(l) == under(intersection_of(inputs), key).contains(l) by {
        lemma_under_all_inputs(inputs, key, l);
        if refs_all(refs).contains(l) {
            assert forall|i: int| 0 <= i < inputs.count() implies under(
                #[trigger] inputs.set_at(i),
                key,
            ).contains(l) by {
                if i == seed {
                    assert(refs[0].lows().contains(l));
                } else {
                    assert(order.contains(i));
                    let j = choose|j: int| 0 <= j < order.len() && order[j] == i;
                    assert(refs[1 + j].lows() == under(before[j].rest(), key));
                    assert(refs[1 + j].lows().contains(l));
                }
            }
        }
        if under(intersection_of(inputs), key).contains(l) {
            assert forall|k: int| 0 <= k < refs.len() implies (#[trigger] refs[k]).lows().contains(l) by {
                if k == 0 {
                    assert(under(inputs.set_at(seed), key).contains(l));
                } else {
                    assert(refs[1 + (k - 1)].lows() == under(before[k - 1].rest(), key));
                    assert(under(inputs.set_at(order[k - 1]), key).contains(l));
                }
            }
        }
    }
    assert(refs_all(refs) =~= under(intersection_of(inputs), key));
}

/// The planned slot has room for whatever fits the smallest container.
proof fn lemma_room<I: Inputs + ?Sized>(
    inputs: &I,
    slots: Seq<crate::plan::SlotPlan>,
    slot: int,
    seed: int,
    order: Seq<int>,
    before: Seq<ContainerCursor>,
    key: u16,
    refs: Seq<ContainerRef>,
    bytes: int,
)
    requires
        0 <= seed < inputs.count(),
        crate::plan::slots_ok(slots),
        fits_and(slots, inputs),
        in_all(inputs, key),
        planned(slots, slot, key),
        order.len() == before.len(),
        forall|i: int| 0 <= i < inputs.count() && i != seed ==> #[trigger] order.contains(i),
        forall|j: int|
            0 <= j < before.len() ==> under((#[trigger] before[j]).rest(), key) == under(
                inputs.set_at(order[j]),
                key,
            ),
        refs_ok(refs),
        refs.len() == before.len() + 1,
        refs[0].lows() == under(inputs.set_at(seed), key),
        forall|j: int|
            0 <= j < before.len() ==> refs[1 + j].lows() == under((#[trigger] before[j]).rest(), key),
        forall|i: int| 0 <= i < refs.len() ==> bytes <= shrink_cap_spec((#[trigger] refs[i]).card as int),
    ensures
        bytes <= slots[slot].capacity,
{
    let s = choose|s: int| #[trigger]
        planned(slots, s, key) && and_room(slots[s].capacity as int, inputs, key);
    assert(s == slot) by {
        if s < slot {
            assert(slots[s].key < slots[slot].key);
        } else if slot < s {
            assert(slots[slot].key < slots[s].key);
        }
    }
    let i = choose|i: int|
        0 <= i < inputs.count() && slots[s].capacity >= shrink_cap_spec(
            under(#[trigger] inputs.set_at(i), key).len() as int,
        );
    if i == seed {
        assert(bytes <= shrink_cap_spec(refs[0].card as int));
    } else {
        assert(order.contains(i));
        let j = choose|j: int| 0 <= j < order.len() && order[j] == i;
        assert(refs[1 + j].lows() == under(before[j].rest(), key));
        assert(bytes <= shrink_cap_spec(refs[1 + j].card as int));
    }
}

/// AND, folded into an arena left for the caller to fold further or to serialize.
pub fn intersect_into<I: Inputs + ?Sized>(inputs: &I) -> (r: OpArena)
    requires
        inputs.ok(),
    ensures
        r.wf(),
        r.set() == intersection_of(inputs),
        formed(r, and_forms(inputs)),
{
    intersect_into_buf(inputs, aligned_buf(0))
}

/// Fold into an arena in the memory of `buf`.
fn intersect_into_buf<I: Inputs + ?Sized>(inputs: &I, buf: AlignedBuf) -> (r: OpArena)
    requires
        inputs.ok(),
    ensures
        r.wf(),
        r.set() == intersection_of(inputs),
        formed(r, and_forms(inputs)),
        buf_room(r.memory()) >= buf_room(buf),
{
    let plan: Plan = plan_intersect(inputs);
    let mut arena: OpArena = OpArena::from_plan_in(&plan, buf);
    let ghost a0 = arena;
    intersect_fold(&mut arena, inputs);
    proof {
        arena.lemma_same_slots(a0);
    }
    arena
}

/// AND in the memory of `buf`. Tiny inputs skip the capacity analysis.
pub(crate) fn intersect_arena(views: &[FrozenBitmapView], buf: AlignedBuf) -> (r: OpArena)
    ensures
        r.wf(),
        r.set() == intersection_of(views),
        formed(r, and_forms(views)),
        buf_room(r.memory()) >= buf_room(buf),
{
    if views.len() > 0 {
        let mut seed: usize = 0;
        let mut i: usize = 1;
        while i < views.len()
            invariant
                1 <= i <= views.len(),
                seed < i,
            decreases views.len() - i,
        {
            if views[i].num_containers() < views[seed].num_containers() {
                seed = i;
            }
            i = i + 1;
        }
        if trivial(views, seed) {
            let plan: Plan = plan_trivial(Op::Intersect, views, seed);
            let mut arena: OpArena = OpArena::from_plan_in(&plan, buf);
            let ghost a0 = arena;
            intersect_fold(&mut arena, views);
            proof {
                arena.lemma_same_slots(a0);
            }
            return arena;
        }
    }
    intersect_into_buf(views, buf)
}

/// N-way intersection (AND), in op-ready standard form. No inputs give the empty set; a
/// single input is copied.
pub fn intersect(views: &[FrozenBitmapView]) -> (r: FrozenBitmap)
    ensures
        r.set() == intersection_of(views),
        !inline_magic(r.src()),
        tidy(r.src()),
        snug(r.src()),
        slim(r.src()),
        forms_ok(r.src(), and_forms(views)),
{
    let arena: OpArena = intersect_arena(views, aligned_buf(0));
    let ghost a = arena;
    let r: FrozenBitmap = arena.serialize();
    proof {
        lemma_forms_fast(a, r.src(), and_forms(views));
    }
    r
}

/// Like [`intersect`], for storage: each block in its smallest form, so that the bytes are a
/// function of the values.
pub fn intersect_compact(views: &[FrozenBitmapView]) -> (r: FrozenBitmap)
    ensures
        r.set() == intersection_of(views),
        !inline_magic(r.src()),
        finished_standard(r.src(), intersection_of(views)),
{
    let arena: OpArena = intersect_arena(views, aligned_buf(0));
    let r: FrozenBitmap = encode_smallest(&arena, aligned_buf(0));
    proof {
        lemma_canonical_standard(r.src(), intersection_of(views));
    }
    r
}

/// Like [`intersect`], in memory from `p`. `None` where the budget refuses a buffer.
pub fn intersect_in(views: &[FrozenBitmapView], p: &mut Buffers) -> (r: Option<FrozenBitmap>)
    requires
        old(p).wf(),
        old(p).arenas().out() < usize::MAX,
        old(p).results().out() < usize::MAX,
    ensures
        r matches Some(b) ==> {
            &&& b.set() == intersection_of(views)
            &&& !inline_magic(b.src())
            &&& tidy(b.src())
            &&& snug(b.src())
            &&& slim(b.src())
            &&& forms_ok(b.src(), and_forms(views))
        },
        folded_once(*old(p), *final(p), r),
{
    let buf: AlignedBuf = match borrow_buf(p) {
        None => {
            return None;
        },
        Some(buf) => buf,
    };
    let ghost buf0 = buf;
    let arena: OpArena = intersect_arena(views, buf);
    let ghost a = arena;
    let r: FrozenBitmap = arena.serialize();
    proof {
        lemma_forms_fast(a, r.src(), and_forms(views));
    }
    let ghost mid = *p;
    swap_out(p);
    proof {
        assert(taken(old(p).arenas(), mid.arenas(), buf0));
        assert(swapped(*old(p), mid.arenas(), *p));
    }
    Some(r)
}

/// Like [`intersect_compact`], in memory from `p`. `None` where the budget refuses a buffer.
pub fn intersect_compact_in(views: &[FrozenBitmapView], p: &mut Buffers) -> (r: Option<FrozenBitmap>)
    requires
        old(p).wf(),
        old(p).arenas().out() < usize::MAX,
        old(p).results().out() < usize::MAX,
    ensures
        r matches Some(b) ==> {
            &&& b.set() == intersection_of(views)
            &&& !inline_magic(b.src())
            &&& finished_standard(b.src(), intersection_of(views))
        },
        stored_once(*old(p), *final(p), r),
{
    let buf: AlignedBuf = match borrow_buf(p) {
        None => {
            return None;
        },
        Some(buf) => buf,
    };
    let ghost (mid, buf0) = (*p, buf);
    let arena: OpArena = intersect_arena(views, buf);
    let out: AlignedBuf = result_buf(p);
    let r: FrozenBitmap = encode_smallest(&arena, out);
    let back: AlignedBuf = arena.into_buf();
    give_buf(p, back);
    proof {
        lemma_canonical_standard(r.src(), intersection_of(views));
        assert(taken(old(p).results(), p.results(), out));
        assert(given(mid.arenas(), p.arenas(), back, old(p).limits().buffers));
        assert(taken(old(p).arenas(), mid.arenas(), buf0));
    }
    Some(r)
}

} // verus!
