//! Running an evaluation manifest.
use vstd::prelude::*;

use crate::arena::OpArena;
use crate::buffer::AlignedBuf;
use crate::cursor::{
    arena_form, arena_stored, frozen_form, frozen_stored, ContainerCursor,
};
use crate::decide::shrink_cap_spec;
use crate::depth::{height, lemma_height_next, lemma_height_take, level, level_at, peak};
use crate::difference::diff_fold;
use crate::intersect::intersect_fold;
use crate::keymask::KeyMask;
use crate::machine::{
    empty_val, fits, folded_val, lead_caps, leaf_val, needs, op_set, room, run, slot_caps, val_sets,
    Step, Val,
};
use crate::memory::{borrow_buf, give_buf, in_budget, Buffers};
use crate::model::{lemma_under_some, masked, under};
use crate::plan::{
    and_room, diff_room, difference_of, fits_and, fits_diff, fits_or, in_all, in_any, in_lhs,
    intersection_of, or_room, planned, touched, union_of, Op, Plan, SlotPlan,
};
use crate::pool::OnOverflow;
use crate::source::{keys_of, view_container_count, Inputs};
use crate::union::union_fold;
use crate::usage::{
    account, credited, holders, lemma_holders, lemma_holders_push, lemma_holders_split, spent,
};
use crate::view::FrozenBitmapView;
use vstd::slice::slice_subrange;

verus! {

/// A working operand on the execution stack.
pub enum Acc<'a> {
    /// A leaf, still bytes.
    Leaf(FrozenBitmapView<'a>),
    /// A folded result, read back directly by the next op.
    Arena(OpArena),
    /// A skipped, empty result.
    Empty,
}

impl<'a> Acc<'a> {
    pub open spec fn wf(self) -> bool {
        self matches Acc::Arena(a) ==> a.wf()
    }

    /// The values under live keys. An arena's leaves were masked when they were folded.
    pub open spec fn seen(self, mask: Set<u16>) -> Set<u32> {
        match self {
            Acc::Leaf(v) => masked(v@, mask),
            Acc::Arena(a) => a.set(),
            Acc::Empty => Set::empty(),
        }
    }

    /// Stored bytes of the container under `key`.
    pub open spec fn stored(self, key: u16) -> int {
        match self {
            Acc::Leaf(v) => frozen_stored(v.src(), key),
            Acc::Arena(a) => arena_stored(a, key),
            Acc::Empty => 0,
        }
    }

    /// Form of the container under `key`.
    pub open spec fn form(self, key: u16) -> u8 {
        match self {
            Acc::Leaf(v) => frozen_form(v.src(), key),
            Acc::Arena(a) => arena_form(a, key),
            Acc::Empty => 0,
        }
    }

    /// Containers before masking.
    pub open spec fn width(self) -> nat {
        match self {
            Acc::Leaf(v) => keys_of(v@).len(),
            Acc::Arena(a) => a.blocks().len(),
            Acc::Empty => 0,
        }
    }

    /// Known to be empty.
    pub open spec fn void(self) -> bool {
        match self {
            Acc::Leaf(v) => v@ == Set::<u32>::empty(),
            Acc::Arena(a) => a.set() == Set::<u32>::empty(),
            Acc::Empty => true,
        }
    }

    /// Whether the operand is known to be empty.
    pub fn is_empty(&self) -> (r: bool)
        requires
            self.wf(),
        ensures
            r == self.void(),
    {
        match self {
            Acc::Leaf(v) => v.is_empty(),
            Acc::Arena(a) => a.is_empty(),
            Acc::Empty => true,
        }
    }
}

/// The operands of one fold, seen through a mask if there is one. Leaf cursors skip keys
/// that are not live.
pub struct Masked<'s, 'a> {
    pub accs: &'s [Acc<'a>],
    pub mask: Option<&'s KeyMask>,
}

/// The live keys: all of them where there is no mask.
pub open spec fn live(mask: Option<&KeyMask>) -> Set<u16> {
    match mask {
        Some(m) => m@,
        None => Set::full(),
    }
}

impl<'s, 'a> Inputs for Masked<'s, 'a> {
    open spec fn ok(&self) -> bool {
        forall|i: int| 0 <= i < self.accs@.len() ==> (#[trigger] self.accs@[i]).wf()
    }

    open spec fn count(&self) -> nat {
        self.accs@.len()
    }

    open spec fn set_at(&self, i: int) -> Set<u32> {
        self.accs@[i].seen(live(self.mask))
    }

    open spec fn stored_at(&self, i: int, key: u16) -> int {
        self.accs@[i].stored(key)
    }

    open spec fn form_at(&self, i: int, key: u16) -> u8 {
        self.accs@[i].form(key)
    }

    open spec fn width_at(&self, i: int) -> nat {
        self.accs@[i].width()
    }

    fn len(&self) -> (r: usize) {
        self.accs.len()
    }

    fn cursor(&self, i: usize) -> (r: ContainerCursor<'_>) {
        assert(self.accs@[i as int].wf());
        match &self.accs[i] {
            Acc::Leaf(v) => match self.mask {
                Some(m) => ContainerCursor::new_live(v, m),
                None => {
                    assert(masked(v@, Set::full()) =~= v@);
                    ContainerCursor::new(v)
                },
            },
            Acc::Arena(a) => ContainerCursor::from_arena(a),
            Acc::Empty => ContainerCursor::empty(),
        }
    }

    fn container_count(&self, i: usize) -> (r: usize) {
        assert(self.accs@[i as int].wf());
        match &self.accs[i] {
            Acc::Leaf(v) => view_container_count(v),
            Acc::Arena(a) => a.container_count(),
            Acc::Empty => 0,
        }
    }
}

/// The operand has the value that the manifest's meaning gives it.
pub open spec fn acc_ok<'a>(acc: Acc<'a>, val: Val, mask: Set<u16>) -> bool {
    &&& acc.wf()
    &&& acc.seen(mask) == val.set
    &&& acc.void() == val.void
    &&& forall|key: u16| #[trigger]
        under(val.set, key).len() > 0 ==> acc.stored(key) <= (val.caps)(key)
}

/// Every operand has its value.
pub open spec fn accs_ok<'a>(accs: Seq<Acc<'a>>, vals: Seq<Val>, mask: Set<u16>) -> bool {
    accs.len() == vals.len() && forall|i: int|
        0 <= i < accs.len() ==> acc_ok(#[trigger] accs[i], vals[i], mask)
}

/// An op on the operands is the op on their values.
proof fn lemma_op_inputs<'s, 'a>(inputs: &Masked<'s, 'a>, vs: Seq<Val>)
    requires
        accs_ok(inputs.accs@, vs, live(inputs.mask)),
    ensures
        intersection_of(inputs) == op_set(Op::Intersect, val_sets(vs)),
        union_of(inputs) == op_set(Op::Union, val_sets(vs)),
        difference_of(inputs) == op_set(Op::Diff, val_sets(vs)),
        forall|i: int| 0 <= i < vs.len() ==> #[trigger] inputs.set_at(i) == val_sets(vs)[i],
{
    let sets = val_sets(vs);
    assert forall|i: int| 0 <= i < vs.len() implies #[trigger] inputs.set_at(i) == sets[i] by {
        assert(acc_ok(inputs.accs@[i], vs[i], live(inputs.mask)));
    }
    assert forall|v: u32|
        intersection_of(inputs).contains(v) == op_set(Op::Intersect, sets).contains(v) by {
        if intersection_of(inputs).contains(v) {
            assert forall|i: int| 0 <= i < sets.len() implies (#[trigger] sets[i]).contains(v) by {
                assert(inputs.set_at(i).contains(v));
            }
        }
        if op_set(Op::Intersect, sets).contains(v) {
            assert forall|i: int| 0 <= i < inputs.count() implies (#[trigger] inputs.set_at(i)).contains(v) by {
                assert(sets[i].contains(v));
            }
        }
    }
    assert(intersection_of(inputs) =~= op_set(Op::Intersect, sets));
    assert forall|v: u32| union_of(inputs).contains(v) == op_set(Op::Union, sets).contains(v) by {
        if union_of(inputs).contains(v) {
            let i = choose|i: int| 0 <= i < inputs.count() && (#[trigger] inputs.set_at(i)).contains(v);
            assert(sets[i].contains(v));
        }
        if op_set(Op::Union, sets).contains(v) {
            let i = choose|i: int| 0 <= i < sets.len() && (#[trigger] sets[i]).contains(v);
            assert(inputs.set_at(i).contains(v));
        }
    }
    assert(union_of(inputs) =~= op_set(Op::Union, sets));
    assert forall|v: u32| difference_of(inputs).contains(v) == op_set(Op::Diff, sets).contains(v) by {
        if vs.len() > 0 {
            assert(inputs.set_at(0) == sets[0]);
        }
        if difference_of(inputs).contains(v) {
            assert forall|i: int| 1 <= i < sets.len() implies !(#[trigger] sets[i]).contains(v) by {
                assert(!inputs.set_at(i).contains(v));
            }
        }
        if op_set(Op::Diff, sets).contains(v) {
            assert forall|i: int| 1 <= i < inputs.count() implies !(#[trigger] inputs.set_at(i)).contains(
                v,
            ) by {
                assert(!sets[i].contains(v));
            }
        }
    }
    assert(difference_of(inputs) =~= op_set(Op::Diff, sets));
}

/// Slots that suffice for the values suffice for the operands.
proof fn lemma_fits_inputs<'s, 'a>(
    op: Op,
    slots: Seq<SlotPlan>,
    inputs: &Masked<'s, 'a>,
    vs: Seq<Val>,
)
    requires
        accs_ok(inputs.accs@, vs, live(inputs.mask)),
        fits(op, slots, val_sets(vs), lead_caps(vs)),
    ensures
        op == Op::Intersect ==> fits_and(slots, inputs),
        op == Op::Union ==> fits_or(slots, inputs),
        op == Op::Diff ==> fits_diff(slots, inputs),
{
    let sets = val_sets(vs);
    lemma_op_inputs(inputs, vs);
    match op {
        Op::Intersect => {
            assert forall|key: u16| #[trigger] in_all(inputs, key) implies exists|s: int| #[trigger]
                planned(slots, s, key) && and_room(slots[s].capacity as int, inputs, key) by {
                assert forall|i: int| 0 <= i < sets.len() implies under(#[trigger] sets[i], key).len() > 0 by {
                    assert(under(inputs.set_at(i), key).len() > 0);
                }
                assert(needs(op, sets, key));
                let s = choose|s: int| #[trigger]
                    planned(slots, s, key) && room(
                        op,
                        slots[s].capacity as int,
                        sets,
                        lead_caps(vs)(key),
                        key,
                    );
                let i = choose|i: int|
                    0 <= i < sets.len() && slots[s].capacity >= shrink_cap_spec(
                        under(#[trigger] sets[i], key).len() as int,
                    );
                assert(under(inputs.set_at(i), key) == under(sets[i], key));
                assert(planned(slots, s, key) && and_room(slots[s].capacity as int, inputs, key));
            }
        },
        Op::Union => {
            assert forall|key: u16| #[trigger] in_any(inputs, key) implies exists|s: int| #[trigger]
                planned(slots, s, key) && or_room(slots[s].capacity as int, inputs, key) by {
                assert(needs(op, sets, key));
                let s = choose|s: int| #[trigger]
                    planned(slots, s, key) && room(
                        op,
                        slots[s].capacity as int,
                        sets,
                        lead_caps(vs)(key),
                        key,
                    );
                assert(planned(slots, s, key) && or_room(slots[s].capacity as int, inputs, key));
            }
        },
        Op::Diff => {
            assert forall|key: u16| #[trigger] in_lhs(inputs, key) implies exists|s: int| #[trigger]
                planned(slots, s, key) && diff_room(slots[s].capacity as int, inputs, key) by {
                assert(inputs.set_at(0) == sets[0]);
                assert(needs(op, sets, key));
                let s = choose|s: int| #[trigger]
                    planned(slots, s, key) && room(
                        op,
                        slots[s].capacity as int,
                        sets,
                        lead_caps(vs)(key),
                        key,
                    );
                assert(acc_ok(inputs.accs@[0], vs[0], live(inputs.mask)));
                assert(inputs.stored_at(0, key) <= lead_caps(vs)(key));
                if touched(inputs, key) {
                    let i = choose|i: int|
                        1 <= i < inputs.count() && under(#[trigger] inputs.set_at(i), key).len() > 0;
                    assert(under(sets[i], key).len() > 0);
                }
                assert(planned(slots, s, key) && diff_room(slots[s].capacity as int, inputs, key));
            }
        },
    }
}

/// A folded arena's containers are within its slots.
proof fn lemma_arena_stored(a: OpArena, slots: Seq<SlotPlan>, key: u16)
    requires
        a.wf(),
        a.slots() == slots,
        under(a.set(), key).len() > 0,
    ensures
        arena_stored(a, key) <= slot_caps(slots)(key),
{
    a.lemma_slots();
    let bl = a.blocks();
    if forall|j: int| 0 <= j < bl.len() ==> (#[trigger] bl[j]).key != key {
        crate::model::lemma_under_none(bl, key);
    }
    let j = choose|j: int| 0 <= j < bl.len() && (#[trigger] bl[j]).key == key;
    assert(0 <= j < bl.len() && bl[j].key == key);
    a.lemma_recorded(j);
    let i = choose|i: int| 0 <= i < a.n() && a.key(i) == bl[j].key && a.size(j) <= a.cap(i);
    assert(slots[i].key == key && slots[i].capacity == a.cap(i));
    assert(planned(slots, i, key));
    let s = choose|s: int| #[trigger] planned(slots, s, key);
    if s < i {
        assert(slots[s].key < slots[i].key);
    } else if i < s {
        assert(slots[i].key < slots[s].key);
    }
}

/// Which operands hold a buffer.
pub open spec fn holds<'a>(accs: Seq<Acc<'a>>) -> Seq<bool> {
    Seq::new(accs.len(), |i: int| accs[i] is Arena)
}

/// Drop the operands above the first `keep`; the memory of arenas goes back to the pool.
fn give_back<'a>(stack: &mut Vec<Acc<'a>>, keep: usize, p: &mut Buffers)
    requires
        keep <= old(stack).len(),
        old(p).wf(),
        holders(holds(old(stack)@)) <= old(p).arenas().out(),
    ensures
        final(stack)@ == old(stack)@.take(keep as int),
        in_budget(*old(p), *final(p)),
        final(p).over() == old(p).over(),
        final(p).results() == old(p).results(),
        account(*final(p)) == credited(
            account(*old(p)),
            holders(holds(old(stack)@).skip(keep as int)),
            old(p).limits(),
        ),
        final(p).arenas().out() == old(p).arenas().out() - holders(holds(old(stack)@)) + holders(
            holds(final(stack)@),
        ),
{
    let ghost all = stack@;
    let ghost hs = holds(all);
    let ghost mut n = all.len() as int;
    assert(all.take(n) =~= all);
    assert(hs.take(n) =~= hs);
    assert(hs.skip(n) =~= Seq::<bool>::empty());
    while stack.len() > keep
        invariant
            keep <= stack.len() == n <= all.len(),
            all == old(stack)@,
            hs == holds(all),
            stack@ == all.take(n),
            in_budget(*old(p), *p),
            p.over() == old(p).over(),
            p.results() == old(p).results(),
            holders(hs) <= old(p).arenas().out(),
            p.arenas().out() == old(p).arenas().out() - holders(hs) + holders(hs.take(n)),
            account(*p) == credited(account(*old(p)), holders(hs.skip(n)), old(p).limits()),
        decreases stack.len(),
    {
        let ghost before = stack@;
        match stack.pop() {
            None => {
                assert(false);
            },
            Some(acc) => {
                proof {
                    assert(stack@ =~= all.take(n - 1));
                    assert(acc == all[n - 1]);
                    lemma_holders_push(hs.take(n - 1), hs[n - 1]);
                    assert(hs.take(n) =~= hs.take(n - 1).push(hs[n - 1]));
                    lemma_holders_split(hs, n);
                    lemma_holders_split(hs, n - 1);
                    lemma_holders(hs.take(n - 1));
                    lemma_holders(hs.skip(n));
                    n = n - 1;
                }
                match acc {
                    Acc::Arena(a) => {
                        give_buf(p, a.into_buf());
                    },
                    _ => {},
                }
            },
        }
    }
    assert(holds(stack@) =~= hs.take(n));
}

/// Fold the operands into an arena sized by the plan, in the memory of `buf`.
fn fold_operands<'s, 'a>(
    plan: &Plan,
    inputs: &Masked<'s, 'a>,
    buf: AlignedBuf,
    Ghost(vs): Ghost<Seq<Val>>,
) -> (r: OpArena)
    requires
        plan.wf(),
        accs_ok(inputs.accs@, vs, live(inputs.mask)),
        fits(plan.op, plan.slots@, val_sets(vs), lead_caps(vs)),
    ensures
        acc_ok(Acc::Arena(r), folded_val(*plan, vs), live(inputs.mask)),
{
    let mut arena: OpArena = OpArena::from_plan_in(plan, buf);
    let ghost a0 = arena;
    proof {
        lemma_fits_inputs(plan.op, plan.slots@, inputs, vs);
        lemma_op_inputs(inputs, vs);
        assert(inputs.ok()) by {
            assert forall|i: int| 0 <= i < inputs.accs@.len() implies (#[trigger] inputs.accs@[i]).wf() by {
                assert(acc_ok(inputs.accs@[i], vs[i], live(inputs.mask)));
            }
        }
    }
    match plan.op {
        Op::Intersect => {
            intersect_fold(&mut arena, inputs);
        },
        Op::Union => {
            union_fold(&mut arena, inputs);
        },
        Op::Diff => {
            diff_fold(&mut arena, inputs);
        },
    }
    proof {
        arena.lemma_same_slots(a0);
        let v = folded_val(*plan, vs);
        assert forall|key: u16| #[trigger] under(v.set, key).len() > 0 implies Acc::Arena(arena).stored(
            key,
        ) <= (v.caps)(key) by {
            lemma_arena_stored(arena, plan.slots@, key);
        }
    }
    arena
}

/// Run the manifest over an operand stack as deep as the analysis found. Each fold sizes its
/// arena from its plan, in memory from the pool that goes back once the next op has read it;
/// a guard that finds its operand empty jumps past the fold. The last operand is the result.
/// `None` where the budget refuses a buffer, as one more than the stack is deep never does.
pub fn execute<'a>(
    steps: &'a Vec<Step<'a>>,
    max_depth: usize,
    mask: Option<&KeyMask>,
    p: &mut Buffers,
    Ghost(goal): Ghost<Seq<Val>>,
) -> (r: Option<Acc<'a>>)
    requires
        level(steps@),
        peak(steps@) == max_depth,
        run(steps@, Seq::empty(), live(mask)) == Some(goal),
        goal.len() == 1,
        steps@.len() > 0,
        steps@.last() is Combine,
        old(p).wf(),
        old(p).arenas().out() + max_depth < usize::MAX,
    ensures
        in_budget(*old(p), *final(p)),
        final(p).results() == old(p).results(),
        match r {
            Some(acc) => {
                &&& acc_ok(acc, goal.last(), live(mask))
                &&& !(acc is Leaf)
                &&& final(p).arenas().out() == old(p).arenas().out() + if acc is Arena {
                    1int
                } else {
                    0
                }
            },
            None => {
                &&& old(p).limits().on_overflow == OnOverflow::Fail
                &&& old(p).arenas().out() + max_depth + 1 > old(p).limits().buffers
                &&& final(p).arenas().out() == old(p).arenas().out() + 1
            },
        },
        old(p).arenas().out() + max_depth + 1 <= old(p).limits().buffers ==> final(p).over() == old(
            p,
        ).over(),
        spent(steps@, Seq::empty(), Seq::empty(), live(mask), old(p).limits(), account(*old(p))) == (
            match r {
                Some(acc) => credited(
                    account(*final(p)),
                    if acc is Arena {
                        1int
                    } else {
                        0
                    },
                    old(p).limits(),
                ),
                None => account(*final(p)),
            },
            r is Some,
        ),
{
    let ghost m = live(mask);
    let ghost limits = p.limits();
    let ghost bill = spent(steps@, Seq::empty(), Seq::empty(), m, limits, account(*p));
    let mut stack: Vec<Acc<'a>> = Vec::with_capacity(max_depth);
    let ghost mut vals: Seq<Val> = Seq::empty();
    let n: usize = steps.len();
    let mut pc: usize = 0;
    assert(steps@.skip(0) =~= steps@);
    proof {
        assert(steps@.take(0) =~= Seq::<Step>::empty());
        lemma_height_take(steps@, 0);
        assert(holds(stack@) =~= Seq::<bool>::empty());
    }
    while pc < n
        invariant
            limits == old(p).limits(),
            bill == spent(steps@, Seq::empty(), Seq::empty(), m, limits, account(*old(p))),
            bill == spent(steps@.skip(pc as int), vals, holds(stack@), m, limits, account(*p)),
            n == steps.len(),
            pc <= n,
            m == live(mask),
            accs_ok(stack@, vals, m),
            level(steps@),
            peak(steps@) == max_depth,
            stack.len() == height(steps@.take(pc as int)) <= max_depth,
            in_budget(*old(p), *p),
            p.results() == old(p).results(),
            p.arenas().out() == old(p).arenas().out() + holders(holds(stack@)),
            old(p).arenas().out() + max_depth < usize::MAX,
            old(p).arenas().out() + max_depth + 1 <= old(p).limits().buffers ==> p.over() == old(
                p,
            ).over(),
            run(steps@.skip(pc as int), vals, m) == Some(goal),
            n > 0,
            steps@.last() is Combine,
            pc == n ==> stack.len() > 0 && !(stack@.last() is Leaf),
        decreases n - pc,
    {
        let ghost code = steps@.skip(pc as int);
        assert(code[0] == steps@[pc as int]);
        assert(code.skip(1) =~= steps@.skip(pc + 1));
        proof {
            assert(level_at(steps@, pc as int));
            lemma_height_next(steps@, pc as int);
            lemma_height_take(steps@, pc + 1);
        }
        let depth: usize = stack.len();
        let ghost hs = holds(stack@);
        proof {
            lemma_holders(hs);
        }
        match &steps[pc] {
            Step::Leaf(v) => {
                let acc: Acc<'a> = Acc::Leaf(*v);
                proof {
                    let val = leaf_val(v.src(), v@, m);
                    assert(acc_ok(acc, val, m));
                    vals = vals.push(val);
                    lemma_holders_push(hs, false);
                    assert(holds(stack@.push(acc)) =~= hs.push(false));
                }
                stack.push(acc);
                pc = pc + 1;
            },
            Step::Owned(b) => {
                let v: FrozenBitmapView<'a> = b.view();
                let acc: Acc<'a> = Acc::Leaf(v);
                proof {
                    let val = leaf_val(v.src(), v@, m);
                    assert(acc_ok(acc, val, m));
                    vals = vals.push(val);
                    lemma_holders_push(hs, false);
                    assert(holds(stack@.push(acc)) =~= hs.push(false));
                }
                stack.push(acc);
                pc = pc + 1;
            },
            Step::Guard { skip, pop } => {
                assert(acc_ok(stack@[depth - 1], vals[depth - 1], m));
                if stack[depth - 1].is_empty() {
                    assert(code.skip(*skip as int) =~= steps@.skip(pc + *skip));
                    proof {
                        lemma_height_take(steps@, pc + *skip);
                    }
                    let ghost s0 = stack@;
                    give_back(&mut stack, depth - *pop, p);
                    proof {
                        let keep = (depth - *pop) as int;
                        assert(stack@ =~= s0.take(keep));
                        lemma_holders_push(hs.take(keep), false);
                        assert(holds(stack@) =~= hs.take(keep));
                        assert(holds(stack@.push(Acc::Empty)) =~= hs.take(keep).push(false));
                        let next = vals.take(keep).push(empty_val());
                        assert forall|i: int| 0 <= i < keep implies acc_ok(
                            #[trigger] stack@[i],
                            next[i],
                            m,
                        ) by {
                            assert(acc_ok(s0[i], vals[i], m));
                        }
                        assert(acc_ok(Acc::<'a>::Empty, empty_val(), m)) by {
                            assert forall|key: u16| #[trigger] under(empty_val().set, key).len() > 0 implies false by {
                                lemma_under_some(empty_val().set, key);
                            }
                        }
                        vals = next;
                    }
                    stack.push(Acc::Empty);
                    pc = pc + *skip;
                } else {
                    pc = pc + 1;
                }
            },
            Step::Combine(k, plan) => {
                let start: usize = depth - *k;
                let ghost vs = vals.skip(start as int);
                let ghost s0 = stack@;
                let accs: &[Acc<'a>] = slice_subrange(stack.as_slice(), start, depth);
                proof {
                    assert(accs_ok(accs@, vs, m)) by {
                        assert forall|i: int| 0 <= i < accs@.len() implies acc_ok(
                            #[trigger] accs@[i],
                            vs[i],
                            m,
                        ) by {
                            assert(accs@[i] == s0[start + i]);
                            assert(acc_ok(s0[start + i], vals[start + i], m));
                        }
                    }
                }
                let buf: AlignedBuf = match borrow_buf(p) {
                    None => {
                        give_back(&mut stack, 0, p);
                        proof {
                            assert(hs.skip(0) =~= hs);
                            assert(holds(stack@) =~= Seq::<bool>::empty());
                        }
                        return None;
                    },
                    Some(buf) => buf,
                };
                let arena: OpArena = fold_operands(plan, &Masked { accs, mask }, buf, Ghost(vs));
                give_back(&mut stack, start, p);
                proof {
                    assert(stack@ =~= s0.take(start as int));
                    lemma_holders_push(hs.take(start as int), true);
                    assert(holds(stack@) =~= hs.take(start as int));
                    assert(holds(stack@.push(Acc::Arena(arena))) =~= hs.take(start as int).push(true));
                    let next = vals.take(start as int).push(folded_val(*plan, vs));
                    assert forall|i: int| 0 <= i < start implies acc_ok(#[trigger] stack@[i], next[i], m) by {
                        assert(acc_ok(s0[i], vals[i], m));
                    }
                    vals = next;
                }
                stack.push(Acc::Arena(arena));
                pc = pc + 1;
            },
        }
    }
    assert(steps@.skip(n as int) =~= Seq::<Step>::empty());
    assert(vals == goal);
    assert(acc_ok(stack@[0], vals[0], m));
    let ghost last = stack@;
    match stack.pop() {
        Some(acc) => {
            proof {
                let none = Seq::<bool>::empty();
                assert(holds(last) =~= none.push(acc is Arena));
                lemma_holders_push(none, acc is Arena);
            }
            Some(acc)
        },
        None => {
            assert(false);
            None
        },
    }
}

} // verus!
