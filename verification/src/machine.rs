//! What a linear evaluation manifest means.
//!
//! A manifest is a post-order list of steps on a stack of operands. This module gives the
//! steps their meaning on sets, and shows that a segment put together from the segments of
//! its operands, with guards that jump over the rest of an op once its result is known to
//! be empty, pushes what the op leaves of them.
use vstd::prelude::*;

use crate::bitmap::FrozenBitmap;
use crate::cursor::frozen_stored;
use crate::decide::shrink_cap_spec;
use crate::format::BITMAP_BYTES;
use crate::model::{lemma_join, masked, under};
use crate::plan::{planned, Op, Plan, SlotPlan};
use crate::shape::{bounds, meta_of, plan_of, shape_ok, spans, Meta};
use crate::view::FrozenBitmapView;
use std::sync::Arc;

verus! {

/// One linearized instruction.
pub enum Step<'a> {
    /// Push a borrowed leaf.
    Leaf(FrozenBitmapView<'a>),
    /// Push a shared leaf.
    Owned(Arc<FrozenBitmap>),
    /// Pop so many operands and fold them into an arena sized by the plan.
    Combine(usize, Plan),
    /// If the operand just produced is empty, so is the whole op: drop its `pop` operands,
    /// push an empty result and jump `skip` steps forward, past the fold. The offset is
    /// relative, so it survives splicing; 0 while it is not known yet.
    Guard { skip: usize, pop: usize },
}

/// An operand on the stack.
pub struct Val {
    /// Its values, under live keys.
    pub set: Set<u32>,
    /// It is known to be empty.
    pub void: bool,
    /// Bounds on its containers' stored bytes.
    pub caps: spec_fn(u16) -> int,
}

/// An operand as the analysis knows it.
pub struct Opd {
    pub set: Set<u32>,
    pub shape: Seq<Meta>,
}

/// The value of an operand, seen through a mask.
pub open spec fn val_ok(v: Val, o: Opd, mask: Set<u16>) -> bool {
    &&& v.set == masked(o.set, mask)
    &&& v.void ==> v.set == Set::<u32>::empty()
    &&& forall|key: u16| #[trigger]
        under(v.set, key).len() > 0 ==> spans(o.shape, key) && (v.caps)(key) <= meta_of(
            o.shape,
            key,
        ).cap
}

pub open spec fn vals_ok(vs: Seq<Val>, os: Seq<Opd>, mask: Set<u16>) -> bool {
    vs.len() == os.len() && forall|i: int|
        0 <= i < vs.len() ==> val_ok(#[trigger] vs[i], os[i], mask)
}

/// What an op leaves of some sets.
pub open spec fn op_set(op: Op, sets: Seq<Set<u32>>) -> Set<u32> {
    match op {
        Op::Intersect => Set::new(
            |v: u32|
                sets.len() > 0 && forall|i: int|
                    0 <= i < sets.len() ==> (#[trigger] sets[i]).contains(v),
        ),
        Op::Union => Set::new(
            |v: u32| exists|i: int| 0 <= i < sets.len() && (#[trigger] sets[i]).contains(v),
        ),
        Op::Diff => Set::new(
            |v: u32|
                sets.len() > 0 && sets[0].contains(v) && forall|i: int|
                    1 <= i < sets.len() ==> !(#[trigger] sets[i]).contains(v),
        ),
    }
}

pub open spec fn val_sets(vs: Seq<Val>) -> Seq<Set<u32>> {
    Seq::new(vs.len(), |i: int| vs[i].set)
}

pub open spec fn opd_sets(os: Seq<Opd>) -> Seq<Set<u32>> {
    Seq::new(os.len(), |i: int| os[i].set)
}

/// Every set has something under `key`.
pub open spec fn all_under_key(sets: Seq<Set<u32>>, key: u16) -> bool {
    sets.len() > 0 && forall|i: int| 0 <= i < sets.len() ==> under(#[trigger] sets[i], key).len() > 0
}

/// The capacity suffices for an op on `sets` under `key`, the first operand's container
/// taking up to `cap0` bytes.
pub open spec fn room(op: Op, cap: int, sets: Seq<Set<u32>>, cap0: int, key: u16) -> bool {
    match op {
        Op::Intersect => exists|i: int|
            0 <= i < sets.len() && cap >= shrink_cap_spec(under(#[trigger] sets[i], key).len() as int),
        Op::Union => cap == BITMAP_BYTES || 2 * under(op_set(Op::Union, sets), key).len() <= cap,
        Op::Diff => cap >= cap0 && ((exists|i: int|
            1 <= i < sets.len() && under(#[trigger] sets[i], key).len() > 0) ==> cap
            >= shrink_cap_spec(under(sets[0], key).len() as int)),
    }
}

/// A key that needs a slot.
pub open spec fn needs(op: Op, sets: Seq<Set<u32>>, key: u16) -> bool {
    match op {
        Op::Intersect => all_under_key(sets, key),
        Op::Union => under(op_set(Op::Union, sets), key).len() > 0,
        Op::Diff => sets.len() > 0 && under(sets[0], key).len() > 0,
    }
}

/// The slots suffice for an op.
pub open spec fn fits(op: Op, slots: Seq<SlotPlan>, sets: Seq<Set<u32>>, caps0: spec_fn(u16) -> int) -> bool {
    forall|key: u16| #[trigger]
        needs(op, sets, key) ==> exists|s: int| #[trigger]
            planned(slots, s, key) && room(op, slots[s].capacity as int, sets, caps0(key), key)
}

/// Bounds on the containers of a folded arena.
pub open spec fn slot_caps(slots: Seq<SlotPlan>) -> spec_fn(u16) -> int {
    |key: u16| slots[choose|s: int| #[trigger] planned(slots, s, key)].capacity as int
}

/// The first operand's bounds.
pub open spec fn lead_caps(vs: Seq<Val>) -> spec_fn(u16) -> int {
    |key: u16|
        if vs.len() > 0 {
            (vs[0].caps)(key)
        } else {
            0
        }
}

/// A leaf's value.
pub open spec fn leaf_val(b: Seq<u8>, set: Set<u32>, mask: Set<u16>) -> Val {
    Val {
        set: masked(set, mask),
        void: set == Set::<u32>::empty(),
        caps: |key: u16| frozen_stored(b, key),
    }
}

/// A shared leaf's value.
pub open spec fn owned_val(b: Arc<FrozenBitmap>, mask: Set<u16>) -> Val {
    leaf_val((*b).src(), (*b).set(), mask)
}

/// The value of a skipped op.
pub open spec fn empty_val() -> Val {
    Val { set: Set::empty(), void: true, caps: |key: u16| 0int }
}

/// The value of a folded op.
pub open spec fn folded_val(plan: Plan, vs: Seq<Val>) -> Val {
    let t = op_set(plan.op, val_sets(vs));
    Val { set: t, void: t == Set::<u32>::empty(), caps: slot_caps(plan.slots@) }
}

/// Run `code` on a stack; `None` if a step does not fit.
pub open spec fn run<'a>(code: Seq<Step<'a>>, stack: Seq<Val>, mask: Set<u16>) -> Option<Seq<Val>>
    decreases code.len(),
{
    if code.len() == 0 {
        Some(stack)
    } else {
        let n = stack.len() as int;
        match code[0] {
            Step::Leaf(v) => run(code.skip(1), stack.push(leaf_val(v.src(), v@, mask)), mask),
            Step::Owned(b) => run(
                code.skip(1),
                stack.push(owned_val(b, mask)),
                mask,
            ),
            Step::Combine(k, plan) => {
                let vs = stack.skip(n - k);
                if k <= n && plan.wf() && fits(plan.op, plan.slots@, val_sets(vs), lead_caps(vs)) {
                    run(code.skip(1), stack.take(n - k).push(folded_val(plan, vs)), mask)
                } else {
                    None
                }
            },
            Step::Guard { skip, pop } => {
                if !(1 <= pop <= n && 1 <= skip <= code.len()) {
                    None
                } else if stack[n - 1].void {
                    run(code.skip(skip as int), stack.take(n - pop).push(empty_val()), mask)
                } else {
                    run(code.skip(1), stack, mask)
                }
            },
        }
    }
}

/// Whatever follows it, `code` pushes the operands `os`.
pub open spec fn pushes<'a>(code: Seq<Step<'a>>, os: Seq<Opd>) -> bool {
    forall|post: Seq<Step<'a>>, stack: Seq<Val>, mask: Set<u16>| #[trigger]
        pushes_on(code, os, post, stack, mask)
}

pub open spec fn pushes_on<'a>(
    code: Seq<Step<'a>>,
    os: Seq<Opd>,
    post: Seq<Step<'a>>,
    stack: Seq<Val>,
    mask: Set<u16>,
) -> bool {
    exists|vs: Seq<Val>| #[trigger]
        vals_ok(vs, os, mask) && run(code + post, stack, mask) == run(post, stack + vs, mask)
}

pub proof fn lemma_pushes_none<'a>()
    ensures
        pushes(Seq::<Step<'a>>::empty(), Seq::<Opd>::empty()),
{
    assert forall|post: Seq<Step<'a>>, stack: Seq<Val>, mask: Set<u16>| #[trigger]
        pushes_on(Seq::<Step<'a>>::empty(), Seq::<Opd>::empty(), post, stack, mask) by {
        let vs = Seq::<Val>::empty();
        assert(vals_ok(vs, Seq::<Opd>::empty(), mask));
        assert(Seq::<Step<'a>>::empty() + post =~= post);
        assert(stack + vs =~= stack);
    }
}

/// Segments push one after the other.
pub proof fn lemma_pushes_both<'a>(a: Seq<Step<'a>>, xs: Seq<Opd>, b: Seq<Step<'a>>, ys: Seq<Opd>)
    requires
        pushes(a, xs),
        pushes(b, ys),
    ensures
        pushes(a + b, xs + ys),
{
    assert forall|post: Seq<Step<'a>>, stack: Seq<Val>, mask: Set<u16>| #[trigger]
        pushes_on(a + b, xs + ys, post, stack, mask) by {
        assert(pushes_on(a, xs, b + post, stack, mask));
        let v = choose|v: Seq<Val>| #[trigger]
            vals_ok(v, xs, mask) && run(a + (b + post), stack, mask) == run(
                b + post,
                stack + v,
                mask,
            );
        assert(pushes_on(b, ys, post, stack + v, mask));
        let w = choose|w: Seq<Val>| #[trigger]
            vals_ok(w, ys, mask) && run(b + post, stack + v, mask) == run(post, stack + v + w, mask);
        assert((a + b) + post =~= a + (b + post));
        assert(stack + (v + w) =~= stack + v + w);
        lemma_vals_both(v, xs, w, ys, mask);
        assert(vals_ok(v + w, xs + ys, mask));
    }
}

proof fn lemma_vals_both(v: Seq<Val>, xs: Seq<Opd>, w: Seq<Val>, ys: Seq<Opd>, mask: Set<u16>)
    requires
        vals_ok(v, xs, mask),
        vals_ok(w, ys, mask),
    ensures
        vals_ok(v + w, xs + ys, mask),
{
    assert forall|i: int| 0 <= i < (v + w).len() implies val_ok(#[trigger] (v + w)[i], (xs + ys)[i], mask) by {
        if i < v.len() {
            assert(val_ok(v[i], xs[i], mask));
        } else {
            assert(val_ok(w[i - v.len()], ys[i - v.len()], mask));
        }
    }
}

/// A leaf pushes itself.
pub proof fn lemma_pushes_leaf<'a>(step: Step<'a>, b: Seq<u8>, o: Opd)
    requires
        step matches Step::Leaf(v) ==> v.src() == b && v@ == o.set,
        step matches Step::Owned(x) ==> (*x).src() == b && (*x).set() == o.set,
        step is Leaf || step is Owned,
        forall|key: u16| #[trigger]
            under(o.set, key).len() > 0 ==> spans(o.shape, key) && frozen_stored(b, key) <= meta_of(
                o.shape,
                key,
            ).cap,
    ensures
        pushes(seq![step], seq![o]),
{
    assert forall|post: Seq<Step<'a>>, stack: Seq<Val>, mask: Set<u16>| #[trigger]
        pushes_on(seq![step], seq![o], post, stack, mask) by {
        let v = leaf_val(b, o.set, mask);
        let vs = seq![v];
        let code = seq![step] + post;
        assert(code[0] == step);
        assert(code.skip(1) =~= post);
        assert(stack + vs =~= stack.push(v));
        assert(val_ok(v, o, mask)) by {
            if v.void {
                assert(v.set =~= Set::<u32>::empty());
            }
            assert forall|key: u16| #[trigger] under(v.set, key).len() > 0 implies spans(o.shape, key)
                && (v.caps)(key) <= meta_of(o.shape, key).cap by {
                lemma_masked_under(o.set, mask, key);
            }
        }
        assert(vals_ok(vs, seq![o], mask));
    }
}

/// A mask keeps whole blocks.
pub proof fn lemma_masked_under(s: Set<u32>, mask: Set<u16>, key: u16)
    ensures
        mask.contains(key) ==> under(masked(s, mask), key) == under(s, key),
        !mask.contains(key) ==> under(masked(s, mask), key).len() == 0,
        under(masked(s, mask), key).len() > 0 ==> mask.contains(key),
{
    let u = under(masked(s, mask), key);
    if mask.contains(key) {
        assert forall|l: u16| u.contains(l) == under(s, key).contains(l) by {
            lemma_join(key, l);
        }
        assert(u =~= under(s, key));
    } else {
        assert forall|l: u16| !u.contains(l) by {
            lemma_join(key, l);
        }
        assert(u =~= Set::<u16>::empty());
    }
}

/// The sets, seen through a mask.
pub open spec fn masked_sets(sets: Seq<Set<u32>>, mask: Set<u16>) -> Seq<Set<u32>> {
    Seq::new(sets.len(), |i: int| masked(sets[i], mask))
}

/// Pruning by key keeps an op's result: masking the operands masks the result.
pub proof fn lemma_masked_op(op: Op, sets: Seq<Set<u32>>, mask: Set<u16>)
    ensures
        op_set(op, masked_sets(sets, mask)) == masked(op_set(op, sets), mask),
{
    let ms = masked_sets(sets, mask);
    let (a, b) = (op_set(op, ms), masked(op_set(op, sets), mask));
    assert forall|v: u32| a.contains(v) == b.contains(v) by {
        match op {
            Op::Intersect => {
                if a.contains(v) {
                    assert(ms[0].contains(v));
                    assert forall|i: int| 0 <= i < sets.len() implies (#[trigger] sets[i]).contains(v) by {
                        assert(ms[i].contains(v));
                    }
                }
                if b.contains(v) {
                    assert forall|i: int| 0 <= i < ms.len() implies (#[trigger] ms[i]).contains(v) by {
                        assert(sets[i].contains(v));
                    }
                }
            },
            Op::Union => {
                if a.contains(v) {
                    let i = choose|i: int| 0 <= i < ms.len() && (#[trigger] ms[i]).contains(v);
                    assert(sets[i].contains(v));
                }
                if b.contains(v) {
                    let i = choose|i: int| 0 <= i < sets.len() && (#[trigger] sets[i]).contains(v);
                    assert(ms[i].contains(v));
                }
            },
            Op::Diff => {
                if a.contains(v) {
                    assert forall|i: int| 1 <= i < sets.len() implies !(#[trigger] sets[i]).contains(v) by {
                        assert(!ms[i].contains(v));
                    }
                }
                if b.contains(v) {
                    assert forall|i: int| 1 <= i < ms.len() implies !(#[trigger] ms[i]).contains(v) by {
                        assert(!sets[i].contains(v));
                    }
                }
            },
        }
    }
    assert(a =~= b);
}

/// Slots that suffice for the operands suffice for what a mask leaves of them.
pub proof fn lemma_masked_fits(
    op: Op,
    slots: Seq<SlotPlan>,
    sets: Seq<Set<u32>>,
    mask: Set<u16>,
    a: spec_fn(u16) -> int,
    b: spec_fn(u16) -> int,
)
    requires
        fits(op, slots, sets, a),
        op == Op::Diff && sets.len() > 0 ==> forall|key: u16| #[trigger]
            under(masked(sets[0], mask), key).len() > 0 ==> b(key) <= a(key),
    ensures
        fits(op, slots, masked_sets(sets, mask), b),
{
    let ms = masked_sets(sets, mask);
    assert forall|key: u16| #[trigger] needs(op, ms, key) implies exists|s: int| #[trigger]
        planned(slots, s, key) && room(op, slots[s].capacity as int, ms, b(key), key) by {
        assert forall|i: int| 0 <= i < sets.len() implies {
            &&& mask.contains(key) ==> under(#[trigger] ms[i], key) == under(sets[i], key)
            &&& !mask.contains(key) ==> under(ms[i], key).len() == 0
        } by {
            lemma_masked_under(sets[i], mask, key);
        }
        lemma_masked_op(op, sets, mask);
        lemma_masked_under(op_set(op, sets), mask, key);
        assert(mask.contains(key)) by {
            match op {
                Op::Intersect => {
                    assert(under(ms[0], key).len() > 0);
                },
                Op::Union => {},
                Op::Diff => {
                    assert(under(ms[0], key).len() > 0);
                },
            }
        }
        assert(needs(op, sets, key)) by {
            match op {
                Op::Intersect => {
                    assert forall|i: int| 0 <= i < sets.len() implies under(#[trigger] sets[i], key).len()
                        > 0 by {
                        assert(under(ms[i], key).len() > 0);
                    }
                },
                _ => {
                    if sets.len() > 0 {
                        assert(under(ms[0], key) == under(sets[0], key));
                    }
                },
            }
        }
        let s = choose|s: int| #[trigger]
            planned(slots, s, key) && room(op, slots[s].capacity as int, sets, a(key), key);
        assert(planned(slots, s, key));
        let cap = slots[s].capacity as int;
        assert(room(op, cap, ms, b(key), key)) by {
            match op {
                Op::Intersect => {
                    let i = choose|i: int|
                        0 <= i < sets.len() && cap >= shrink_cap_spec(
                            under(#[trigger] sets[i], key).len() as int,
                        );
                    assert(under(ms[i], key) == under(sets[i], key));
                },
                Op::Union => {},
                Op::Diff => {
                    assert(under(ms[0], key) == under(sets[0], key));
                    if exists|i: int| 1 <= i < ms.len() && under(#[trigger] ms[i], key).len() > 0 {
                        let i = choose|i: int|
                            1 <= i < ms.len() && under(#[trigger] ms[i], key).len() > 0;
                        assert(under(sets[i], key).len() > 0);
                    }
                },
            }
        }
    }
}

// --- guards -------------------------------------------------------------------------

/// No guard is left open.
pub open spec fn resolved<'a>(code: Seq<Step<'a>>) -> bool {
    forall|i: int| 0 <= i < code.len() ==> !open_guard(#[trigger] code[i])
}

/// The step is a guard whose target is not known yet.
pub open spec fn open_guard<'a>(s: Step<'a>) -> bool {
    s matches Step::Guard { skip, .. } && skip == 0
}

/// The open guards of `code` made to land on `target`.
pub open spec fn patch<'a>(code: Seq<Step<'a>>, target: int) -> Seq<Step<'a>> {
    Seq::new(
        code.len(),
        |i: int|
            match code[i] {
                Step::Guard { skip, pop } => if skip == 0 {
                    Step::Guard { skip: (target - i) as usize, pop }
                } else {
                    code[i]
                },
                _ => code[i],
            },
    )
}

/// Nothing to patch.
pub proof fn lemma_patch_resolved<'a>(code: Seq<Step<'a>>, target: int)
    requires
        resolved(code),
    ensures
        patch(code, target) == code,
{
    let p = patch(code, target);
    assert forall|i: int| 0 <= i < code.len() implies p[i] == code[i] by {
        assert(!open_guard(code[i]));
    }
    assert(p =~= code);
}

/// With `fill` up to the target behind it, the patched `code` pushes the operands `os` and
/// goes on, or has found one of the first `upto` of them empty and jumped to the target
/// with an empty result.
pub open spec fn reaches<'a>(code: Seq<Step<'a>>, os: Seq<Opd>, upto: int) -> bool {
    forall|fill: Seq<Step<'a>>, post: Seq<Step<'a>>, stack: Seq<Val>, mask: Set<u16>|
        code.len() + fill.len() <= usize::MAX ==> #[trigger] reaches_on(
            code,
            os,
            upto,
            fill,
            post,
            stack,
            mask,
        )
}

pub open spec fn patched_code<'a>(code: Seq<Step<'a>>, fill: Seq<Step<'a>>, post: Seq<Step<'a>>) -> Seq<
    Step<'a>,
> {
    patch(code, (code.len() + fill.len()) as int) + fill + post
}

pub open spec fn goes_on<'a>(
    code: Seq<Step<'a>>,
    os: Seq<Opd>,
    fill: Seq<Step<'a>>,
    post: Seq<Step<'a>>,
    stack: Seq<Val>,
    mask: Set<u16>,
) -> bool {
    exists|vs: Seq<Val>| #[trigger]
        vals_ok(vs, os, mask) && run(patched_code(code, fill, post), stack, mask) == run(
            fill + post,
            stack + vs,
            mask,
        )
}

/// One of the first `upto` operands has nothing under live keys.
pub open spec fn some_empty(os: Seq<Opd>, upto: int, mask: Set<u16>) -> bool {
    exists|i: int|
        0 <= i < upto && i < os.len() && masked((#[trigger] os[i]).set, mask) == Set::<u32>::empty()
}

pub open spec fn reaches_on<'a>(
    code: Seq<Step<'a>>,
    os: Seq<Opd>,
    upto: int,
    fill: Seq<Step<'a>>,
    post: Seq<Step<'a>>,
    stack: Seq<Val>,
    mask: Set<u16>,
) -> bool {
    ||| goes_on(code, os, fill, post, stack, mask)
    ||| some_empty(os, upto, mask) && run(patched_code(code, fill, post), stack, mask) == run(
        post,
        stack.push(empty_val()),
        mask,
    )
}

/// A segment without open guards goes on.
pub proof fn lemma_reaches<'a>(code: Seq<Step<'a>>, os: Seq<Opd>, upto: int)
    requires
        pushes(code, os),
        resolved(code),
    ensures
        reaches(code, os, upto),
{
    assert forall|fill: Seq<Step<'a>>, post: Seq<Step<'a>>, stack: Seq<Val>, mask: Set<u16>|
        code.len() + fill.len() <= usize::MAX implies #[trigger] reaches_on(
        code,
        os,
        upto,
        fill,
        post,
        stack,
        mask,
    ) by {
        lemma_patch_resolved(code, (code.len() + fill.len()) as int);
        assert(pushes_on(code, os, fill + post, stack, mask));
        let vs = choose|vs: Seq<Val>| #[trigger]
            vals_ok(vs, os, mask) && run(code + (fill + post), stack, mask) == run(
                fill + post,
                stack + vs,
                mask,
            );
        assert(patched_code(code, fill, post) =~= code + (fill + post));
        assert(vals_ok(vs, os, mask));
    }
}

/// One more segment.
pub proof fn lemma_reaches_both<'a>(
    code: Seq<Step<'a>>,
    os: Seq<Opd>,
    upto: int,
    seg: Seq<Step<'a>>,
    more: Seq<Opd>,
    next: int,
)
    requires
        reaches(code, os, upto),
        pushes(seg, more),
        resolved(seg),
        upto <= next,
        upto <= os.len(),
    ensures
        reaches(code + seg, os + more, next),
{
    assert forall|fill: Seq<Step<'a>>, post: Seq<Step<'a>>, stack: Seq<Val>, mask: Set<u16>|
        (code + seg).len() + fill.len() <= usize::MAX implies #[trigger] reaches_on(
        code + seg,
        os + more,
        next,
        fill,
        post,
        stack,
        mask,
    ) by {
        let t = ((code + seg).len() + fill.len()) as int;
        assert(patch(code + seg, t) =~= patch(code, t) + seg) by {
            let (a, b) = (patch(code + seg, t), patch(code, t) + seg);
            assert forall|i: int| 0 <= i < a.len() implies a[i] == b[i] by {
                if i >= code.len() {
                    assert(!open_guard(seg[i - code.len()]));
                }
            }
        }
        let whole = patched_code(code + seg, fill, post);
        assert(whole =~= patched_code(code, seg + fill, post));
        assert(reaches_on(code, os, upto, seg + fill, post, stack, mask));
        if goes_on(code, os, seg + fill, post, stack, mask) {
            let v = choose|v: Seq<Val>| #[trigger]
                vals_ok(v, os, mask) && run(patched_code(code, seg + fill, post), stack, mask) == run(
                    (seg + fill) + post,
                    stack + v,
                    mask,
                );
            assert((seg + fill) + post =~= seg + (fill + post));
            assert(pushes_on(seg, more, fill + post, stack + v, mask));
            let w = choose|w: Seq<Val>| #[trigger]
                vals_ok(w, more, mask) && run(seg + (fill + post), stack + v, mask) == run(
                    fill + post,
                    stack + v + w,
                    mask,
                );
            lemma_vals_both(v, os, w, more, mask);
            assert(stack + (v + w) =~= stack + v + w);
            assert(vals_ok(v + w, os + more, mask));
            assert(goes_on(code + seg, os + more, fill, post, stack, mask));
        } else {
            let i = choose|i: int|
                0 <= i < upto && i < os.len() && masked((#[trigger] os[i]).set, mask) == Set::<
                    u32,
                >::empty();
            assert((os + more)[i] == os[i]);
            assert(some_empty(os + more, next, mask));
        }
    }
}

/// A guard on the operand just pushed.
pub proof fn lemma_reaches_guard<'a>(code: Seq<Step<'a>>, os: Seq<Opd>, upto: int, pop: usize)
    requires
        reaches(code, os, upto),
        os.len() > 0,
        pop == os.len(),
        upto <= os.len(),
    ensures
        reaches(code.push(Step::Guard { skip: 0, pop }), os, os.len() as int),
{
    let g: Step<'a> = Step::Guard { skip: 0, pop };
    let seg = code.push(g);
    assert forall|fill: Seq<Step<'a>>, post: Seq<Step<'a>>, stack: Seq<Val>, mask: Set<u16>|
        seg.len() + fill.len() <= usize::MAX implies #[trigger] reaches_on(
        seg,
        os,
        os.len() as int,
        fill,
        post,
        stack,
        mask,
    ) by {
        let t = (seg.len() + fill.len()) as int;
        let h: Step<'a> = Step::Guard { skip: (1 + fill.len()) as usize, pop };
        let rest = seq![h] + fill;
        assert(patch(seg, t) =~= patch(code, t).push(h));
        let whole = patched_code(seg, fill, post);
        assert(whole =~= patched_code(code, rest, post));
        assert(reaches_on(code, os, upto, rest, post, stack, mask));
        if goes_on(code, os, rest, post, stack, mask) {
            let vs = choose|vs: Seq<Val>| #[trigger]
                vals_ok(vs, os, mask) && run(patched_code(code, rest, post), stack, mask) == run(
                    rest + post,
                    stack + vs,
                    mask,
                );
            let (c, s) = (rest + post, stack + vs);
            let n = s.len() as int;
            assert(c[0] == h);
            assert(c.skip(1) =~= fill + post);
            assert(c.skip((1 + fill.len()) as int) =~= post);
            assert(s.take(n - pop) =~= stack);
            assert(s[n - 1] == vs[os.len() - 1]);
            assert(val_ok(vs[os.len() - 1], os[os.len() - 1], mask));
            if s[n - 1].void {
                assert(run(c, s, mask) == run(post, stack.push(empty_val()), mask));
                assert(masked(os[os.len() - 1].set, mask) == Set::<u32>::empty());
                assert(some_empty(os, os.len() as int, mask));
            } else {
                assert(run(c, s, mask) == run(fill + post, s, mask));
                assert(vals_ok(vs, os, mask));
                assert(goes_on(seg, os, fill, post, stack, mask));
            }
        } else {
            let i = choose|i: int|
                0 <= i < upto && i < os.len() && masked((#[trigger] os[i]).set, mask) == Set::<
                    u32,
                >::empty();
            assert(masked(os[i].set, mask) == Set::<u32>::empty());
            assert(some_empty(os, os.len() as int, mask));
        }
    }
}

/// The first operand's ceilings.
pub open spec fn lead_shape(os: Seq<Opd>) -> spec_fn(u16) -> int {
    |key: u16|
        if os.len() > 0 {
            meta_of(os[0].shape, key).cap as int
        } else {
            0
        }
}

/// What the analysis must have shown of an op: its slots suffice, and its shape bounds the
/// result.
pub open spec fn analyzed(plan: Plan, os: Seq<Opd>, shape: Seq<Meta>) -> bool {
    &&& plan.wf()
    &&& shape_ok(shape)
    &&& plan_of(plan.slots@, shape)
    &&& fits(plan.op, plan.slots@, opd_sets(os), lead_shape(os))
    &&& bounds(shape, op_set(plan.op, opd_sets(os)))
}

/// An empty operand makes an AND empty, and an empty first operand a DIFF.
proof fn lemma_some_empty(op: Op, os: Seq<Opd>, upto: int, mask: Set<u16>)
    requires
        some_empty(os, upto, mask),
        op == Op::Intersect || op == Op::Diff && upto <= 1,
    ensures
        masked(op_set(op, opd_sets(os)), mask) == Set::<u32>::empty(),
{
    let sets = opd_sets(os);
    let i = choose|i: int|
        0 <= i < upto && i < os.len() && masked((#[trigger] os[i]).set, mask) == Set::<u32>::empty();
    let t = masked(op_set(op, sets), mask);
    assert forall|v: u32| !t.contains(v) by {
        if t.contains(v) {
            assert(sets[i].contains(v));
            assert(masked(os[i].set, mask).contains(v));
        }
    }
    assert(t =~= Set::<u32>::empty());
}

/// Folding the operands pushes what the op leaves of them.
pub proof fn lemma_pushes_op<'a>(
    code: Seq<Step<'a>>,
    os: Seq<Opd>,
    upto: int,
    plan: Plan,
    shape: Seq<Meta>,
    k: usize,
)
    requires
        reaches(code, os, upto),
        code.len() < usize::MAX,
        k == os.len(),
        analyzed(plan, os, shape),
        upto > 0 ==> plan.op == Op::Intersect || plan.op == Op::Diff && upto <= 1,
    ensures
        pushes(
            patch(code, (code.len() + 1) as int).push(Step::Combine(k, plan)),
            seq![Opd { set: op_set(plan.op, opd_sets(os)), shape }],
        ),
{
    let full = patch(code, (code.len() + 1) as int).push(Step::Combine(k, plan));
    let o = Opd { set: op_set(plan.op, opd_sets(os)), shape };
    assert forall|post: Seq<Step<'a>>, stack: Seq<Val>, mask: Set<u16>| #[trigger]
        pushes_on(full, seq![o], post, stack, mask) by {
        let fill = seq![Step::Combine(k, plan)];
        assert(reaches_on(code, os, upto, fill, post, stack, mask));
        assert(patched_code(code, fill, post) =~= full + post);
        if goes_on(code, os, fill, post, stack, mask) {
            let vs = choose|vs: Seq<Val>| #[trigger]
                vals_ok(vs, os, mask) && run(patched_code(code, fill, post), stack, mask) == run(
                    fill + post,
                    stack + vs,
                    mask,
                );
            lemma_folded(vs, os, mask, plan, shape);
            let v = folded_val(plan, vs);
            let (c, s) = (fill + post, stack + vs);
            let n = s.len() as int;
            assert(c[0] == Step::Combine(k, plan));
            assert(c.skip(1) =~= post);
            assert(s.skip(n - k) =~= vs);
            assert(s.take(n - k) =~= stack);
            assert(run(c, s, mask) == run(post, stack.push(v), mask));
            assert(stack + seq![v] =~= stack.push(v));
            assert(vals_ok(seq![v], seq![o], mask));
        } else {
            lemma_some_empty(plan.op, os, upto, mask);
            let v = empty_val();
            assert(val_ok(v, o, mask)) by {
                assert forall|key: u16| #[trigger] under(v.set, key).len() > 0 implies false by {
                    assert(under(v.set, key) =~= Set::<u16>::empty());
                }
            }
            assert(stack + seq![v] =~= stack.push(v));
            assert(vals_ok(seq![v], seq![o], mask));
        }
    }
}

/// The operands, seen through a mask, fit the planned slots, and folding them gives the
/// op's result seen through that mask.
proof fn lemma_folded(vs: Seq<Val>, os: Seq<Opd>, mask: Set<u16>, plan: Plan, shape: Seq<Meta>)
    requires
        vals_ok(vs, os, mask),
        analyzed(plan, os, shape),
    ensures
        fits(plan.op, plan.slots@, val_sets(vs), lead_caps(vs)),
        val_ok(
            folded_val(plan, vs),
            Opd { set: op_set(plan.op, opd_sets(os)), shape },
            mask,
        ),
{
    let sets = opd_sets(os);
    assert(val_sets(vs) =~= masked_sets(sets, mask)) by {
        assert forall|i: int| 0 <= i < vs.len() implies val_sets(vs)[i] == masked_sets(sets, mask)[i] by {
            assert(val_ok(vs[i], os[i], mask));
        }
    }
    if plan.op == Op::Diff && sets.len() > 0 {
        assert forall|key: u16| #[trigger] under(masked(sets[0], mask), key).len() > 0 implies lead_caps(
            vs,
        )(key) <= lead_shape(os)(key) by {
            assert(val_ok(vs[0], os[0], mask));
        }
    }
    lemma_masked_fits(plan.op, plan.slots@, sets, mask, lead_shape(os), lead_caps(vs));
    lemma_masked_op(plan.op, sets, mask);
    let v = folded_val(plan, vs);
    let t = op_set(plan.op, sets);
    assert forall|key: u16| #[trigger] under(v.set, key).len() > 0 implies spans(shape, key)
        && (v.caps)(key) <= meta_of(shape, key).cap by {
        lemma_masked_under(t, mask, key);
        assert(under(t, key).len() > 0);
        let i = choose|i: int| #[trigger] crate::shape::meta_at(shape, i, key);
        crate::shape::lemma_meta_of(shape, i, key);
        assert(plan.slots@[i].key == key);
        assert(planned(plan.slots@, i, key));
        let s = choose|s: int| #[trigger] planned(plan.slots@, s, key);
        assert(shape[s].key == key);
        assert(crate::shape::meta_at(shape, s, key));
        crate::shape::lemma_meta_of(shape, s, key);
    }
}

// --- stripping guards -------------------------------------------------------------------

/// The steps that are not guards.
pub open spec fn strip<'a>(code: Seq<Step<'a>>) -> Seq<Step<'a>>
    decreases code.len(),
{
    if code.len() == 0 {
        code
    } else if code.last() is Guard {
        strip(code.drop_last())
    } else {
        strip(code.drop_last()).push(code.last())
    }
}

pub proof fn lemma_strip_both<'a>(a: Seq<Step<'a>>, b: Seq<Step<'a>>)
    ensures
        strip(a + b) == strip(a) + strip(b),
    decreases b.len(),
{
    if b.len() == 0 {
        assert(a + b =~= a);
        assert(strip(a) + strip(b) =~= strip(a));
    } else {
        assert((a + b).drop_last() =~= a + b.drop_last());
        lemma_strip_both(a, b.drop_last());
        if !(b.last() is Guard) {
            assert(strip(a + b) =~= strip(a) + strip(b));
        }
    }
}

/// Only guards are removed.
pub proof fn lemma_strip_ok<'a>(code: Seq<Step<'a>>)
    ensures
        resolved(strip(code)),
        strip(strip(code)) == strip(code),
        strip(code).len() <= code.len(),
        forall|i: int| 0 <= i < strip(code).len() ==> !(#[trigger] strip(code)[i] is Guard),
    decreases code.len(),
{
    if code.len() > 0 {
        let t = strip(code.drop_last());
        lemma_strip_ok(code.drop_last());
        if !(code.last() is Guard) {
            let z = t.push(code.last());
            assert(z.drop_last() =~= t);
            assert(strip(z) == z);
            assert forall|i: int| 0 <= i < z.len() implies !(#[trigger] z[i] is Guard) by {
                if i < t.len() {
                    assert(z[i] == t[i]);
                }
            }
        }
    }
}

/// Patching changes nothing but guards.
pub proof fn lemma_strip_patch<'a>(code: Seq<Step<'a>>, target: int)
    ensures
        strip(patch(code, target)) == strip(code),
    decreases code.len(),
{
    if code.len() > 0 {
        let p = patch(code, target);
        assert(p.drop_last() =~= patch(code.drop_last(), target));
        lemma_strip_patch(code.drop_last(), target);
    } else {
        assert(patch(code, target) =~= code);
    }
}

// --- copies --------------------------------------------------------------------------------

/// The steps do the same.
pub open spec fn same_step<'a>(a: Step<'a>, b: Step<'a>) -> bool {
    match a {
        Step::Leaf(v) => b matches Step::Leaf(w) && v == w,
        Step::Owned(v) => b matches Step::Owned(w) && v == w,
        Step::Combine(k, p) => b matches Step::Combine(l, q) && k == l && p.op == q.op
            && p.slots@ == q.slots@ && p.scratch_bytes == q.scratch_bytes,
        Step::Guard { skip, pop } => a == b,
    }
}

pub open spec fn same_code<'a>(a: Seq<Step<'a>>, b: Seq<Step<'a>>) -> bool {
    a.len() == b.len() && forall|i: int| 0 <= i < a.len() ==> same_step(#[trigger] a[i], b[i])
}

/// Steps that do the same run the same.
proof fn lemma_run_same<'a>(a: Seq<Step<'a>>, b: Seq<Step<'a>>, stack: Seq<Val>, mask: Set<u16>)
    requires
        same_code(a, b),
    ensures
        run(a, stack, mask) == run(b, stack, mask),
    decreases a.len(),
{
    if a.len() > 0 {
        assert(same_step(a[0], b[0]));
        let n = stack.len() as int;
        lemma_same_skip(a, b, 1);
        match (a[0], b[0]) {
            (Step::Leaf(v), _) => {
                lemma_run_same(a.skip(1), b.skip(1), stack.push(leaf_val(v.src(), v@, mask)), mask);
            },
            (Step::Owned(x), _) => {
                lemma_run_same(
                    a.skip(1),
                    b.skip(1),
                    stack.push(owned_val(x, mask)),
                    mask,
                );
            },
            (Step::Combine(k, p), Step::Combine(l, q)) => {
                let vs = stack.skip(n - k);
                assert(folded_val(p, vs) == folded_val(q, vs));
                lemma_run_same(
                    a.skip(1),
                    b.skip(1),
                    stack.take(n - k).push(folded_val(p, vs)),
                    mask,
                );
            },
            (Step::Guard { skip, pop }, _) => {
                if 1 <= pop <= n && 1 <= skip <= a.len() {
                    if stack[n - 1].void {
                        lemma_same_skip(a, b, skip as int);
                        lemma_run_same(
                            a.skip(skip as int),
                            b.skip(skip as int),
                            stack.take(n - pop).push(empty_val()),
                            mask,
                        );
                    } else {
                        lemma_run_same(a.skip(1), b.skip(1), stack, mask);
                    }
                }
            },
            _ => {},
        }
    }
}

pub proof fn lemma_same_skip<'a>(a: Seq<Step<'a>>, b: Seq<Step<'a>>, k: int)
    requires
        same_code(a, b),
        0 <= k <= a.len(),
    ensures
        same_code(a.skip(k), b.skip(k)),
{
    assert forall|i: int| 0 <= i < a.skip(k).len() implies same_step(#[trigger] a.skip(k)[i], b.skip(k)[i]) by {
        assert(same_step(a[k + i], b[k + i]));
    }
}

/// A copy of a segment pushes the same operands.
pub proof fn lemma_pushes_same<'a>(a: Seq<Step<'a>>, b: Seq<Step<'a>>, os: Seq<Opd>)
    requires
        same_code(a, b),
        pushes(a, os),
    ensures
        pushes(b, os),
{
    assert forall|post: Seq<Step<'a>>, stack: Seq<Val>, mask: Set<u16>| #[trigger]
        pushes_on(b, os, post, stack, mask) by {
        assert(pushes_on(a, os, post, stack, mask));
        let vs = choose|vs: Seq<Val>| #[trigger]
            vals_ok(vs, os, mask) && run(a + post, stack, mask) == run(post, stack + vs, mask);
        assert forall|i: int| 0 <= i < (a + post).len() implies same_step(
            #[trigger] (a + post)[i],
            (b + post)[i],
        ) by {
            if i < a.len() {
                assert(same_step(a[i], b[i]));
            }
        }
        lemma_run_same(a + post, b + post, stack, mask);
        assert(vals_ok(vs, os, mask));
    }
}

/// Copies stay copies without their guards.
pub proof fn lemma_strip_same<'a>(a: Seq<Step<'a>>, b: Seq<Step<'a>>)
    requires
        same_code(a, b),
    ensures
        same_code(strip(a), strip(b)),
    decreases a.len(),
{
    if a.len() > 0 {
        let n = a.len() as int;
        assert(same_step(a[n - 1], b[n - 1]));
        assert forall|i: int| 0 <= i < n - 1 implies same_step(
            #[trigger] a.drop_last()[i],
            b.drop_last()[i],
        ) by {
            assert(same_step(a[i], b[i]));
        }
        lemma_strip_same(a.drop_last(), b.drop_last());
        let (x, y) = (strip(a.drop_last()), strip(b.drop_last()));
        if !(a.last() is Guard) {
            let (u, w) = (x.push(a.last()), y.push(b.last()));
            assert forall|i: int| 0 <= i < u.len() implies same_step(#[trigger] u[i], w[i]) by {
                if i < x.len() {
                    assert(same_step(x[i], y[i]));
                }
            }
        }
    }
}

/// `Arc::clone`: another pointer to the same bitmap.
#[verifier::external_body]
pub(crate) fn share(b: &Arc<FrozenBitmap>) -> (r: Arc<FrozenBitmap>)
    ensures
        r == *b,
{
    Arc::clone(b)
}

/// Copy a segment.
pub fn copy_steps<'a>(code: &Vec<Step<'a>>) -> (r: Vec<Step<'a>>)
    ensures
        same_code(code@, r@),
{
    let mut out: Vec<Step<'a>> = Vec::with_capacity(code.len());
    let mut i: usize = 0;
    while i < code.len()
        invariant
            i <= code.len(),
            out.len() == i,
            forall|k: int| 0 <= k < i ==> same_step(#[trigger] code@[k], out@[k]),
        decreases code.len() - i,
    {
        let step: Step<'a> = match &code[i] {
            Step::Leaf(v) => Step::Leaf(*v),
            Step::Owned(b) => Step::Owned(share(b)),
            Step::Combine(k, plan) => Step::Combine(*k, plan.copy()),
            Step::Guard { skip, pop } => Step::Guard { skip: *skip, pop: *pop },
        };
        assert(same_step(code@[i as int], step));
        out.push(step);
        i = i + 1;
    }
    out
}

} // verus!
