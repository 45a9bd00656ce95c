//! Boolean expression trees over frozen bitmaps.
//!
//! [`BitmapExpr`] combines leaves (borrowed views or shared owned bitmaps) with AND, OR and
//! DIFF. Children are built before parents, so construction is analysis: each combinator
//! folds its children into one flat, post-order step list, flattening same-op chains
//! (`And(And(a, b), c)` is one intersection of `a`, `b` and `c`), and propagates each node's
//! output shape bottom-up, so that every op's arena plan is computed once, up front.
//! [`BitmapExpr::materialize`] then runs that manifest.
use vstd::prelude::*;

use crate::bitmap::FrozenBitmap;
use crate::buffer::{buf_room, AlignedBuf};
use crate::builder::FrozenBitmapBuilder;
use crate::canon::finished_standard;
use crate::cursor::frozen_stored;
use crate::decide::shrink_cap_spec;
use crate::depth::{
    height, lemma_height_both, lemma_height_same, lemma_height_strip, lemma_level_both,
    lemma_level_fold, lemma_level_guard, lemma_level_same, lemma_peak, level, peak,
};
use crate::encode::encode_smallest;
use crate::exec::{execute, live, Acc};
use crate::keymask::KeyMask;
use crate::machine::{
    analyzed, copy_steps, lemma_pushes_same, lemma_strip_same, open_guard, same_code, same_step,
    share, lead_shape, lemma_patch_resolved, lemma_pushes_both, lemma_pushes_leaf,
    lemma_pushes_none, lemma_pushes_op, lemma_reaches, lemma_reaches_both, lemma_reaches_guard,
    lemma_strip_both, lemma_strip_ok, lemma_strip_patch, needs, op_set, opd_sets, patch, pushes,
    pushes_on, reaches, resolved, room, run, strip, val_ok, vals_ok, Opd, Step, Val,
};
use crate::memory::{give_buf, in_budget, result_buf, stored_in, taken, Buffers};
use crate::model::{hi, join, lemma_set16, lemma_under_some, masked, under};
use crate::plan::{planned, Op, Plan};
use crate::pool::{Limits, OnOverflow};
use crate::shape::{
    all_span, any_span, bounds, capped, cards, diff_meta, diff_shape, intersect_shape,
    least_meta, lemma_meta_of, meta_at, meta_of, plan_of, rest_span, roomy, shape_ok, spans, to_plan,
    union_shape, view_shape, Meta, Shape,
};
use crate::source::Inputs;
use crate::usage::{account, credited, lemma_spent_same, spent, Account};
use crate::view::FrozenBitmapView;
use std::sync::Arc;

verus! {

// --- what the analysis shows ---------------------------------------------------------

/// The shape bounds some operand wherever all have values.
pub open spec fn and_group(shape: Seq<Meta>, os: Seq<Opd>) -> bool {
    forall|key: u16| #[trigger]
        needs(Op::Intersect, opd_sets(os), key) ==> spans(shape, key) && exists|i: int|
            0 <= i < os.len() && under((#[trigger] os[i]).set, key).len() <= meta_of(
                shape,
                key,
            ).card
}

/// A smaller bound shrinks to a smaller slot.
proof fn lemma_shrink(a: int, b: int)
    requires
        0 <= a <= b,
    ensures
        shrink_cap_spec(a) <= shrink_cap_spec(b),
{
}

/// AND: the smallest bound sizes the slot.
proof fn lemma_and_analyzed(plan: Plan, os: Seq<Opd>, shapes: Seq<Shape>, shape: Seq<Meta>)
    requires
        plan.wf(),
        plan.op == Op::Intersect,
        plan_of(plan.slots@, shape),
        shape_ok(shape),
        forall|key: u16| #[trigger] spans(shape, key) <==> all_span(shapes, key),
        forall|key: u16| #[trigger]
            spans(shape, key) ==> least_meta(shapes, key, meta_of(shape, key).card as int) && meta_of(
                shape,
                key,
            ).cap == shrink_cap_spec(meta_of(shape, key).card as int),
        os.len() > 0 ==> shapes.len() > 0,
        forall|j: int| 0 <= j < shapes.len() ==> and_group((#[trigger] shapes[j])@, os),
    ensures
        analyzed(plan, os, shape),
        and_group(shape, os),
{
    let sets = opd_sets(os);
    let slots = plan.slots@;
    assert forall|key: u16| #[trigger] needs(Op::Intersect, sets, key) implies spans(shape, key)
        && exists|i: int|
        0 <= i < os.len() && under((#[trigger] os[i]).set, key).len() <= meta_of(shape, key).card by {
        assert(all_span(shapes, key)) by {
            assert forall|j: int| 0 <= j < shapes.len() implies spans((#[trigger] shapes[j])@, key) by {
                assert(and_group(shapes[j]@, os));
            }
        }
        assert(spans(shape, key));
        let c = meta_of(shape, key).card as int;
        let j = choose|j: int| 0 <= j < shapes.len() && c == meta_of((#[trigger] shapes[j])@, key).card;
        assert(and_group(shapes[j]@, os));
    }
    assert forall|key: u16| #[trigger] needs(Op::Intersect, sets, key) implies exists|s: int| #[trigger]
        planned(slots, s, key) && room(
            Op::Intersect,
            slots[s].capacity as int,
            sets,
            lead_shape(os)(key),
            key,
        ) by {
        assert(spans(shape, key));
        let s = choose|s: int| #[trigger] meta_at(shape, s, key);
        lemma_meta_of(shape, s, key);
        assert(slots[s].key == key);
        assert(planned(slots, s, key));
        let i = choose|i: int|
            0 <= i < os.len() && under((#[trigger] os[i]).set, key).len() <= meta_of(
                shape,
                key,
            ).card;
        lemma_shrink(under(os[i].set, key).len() as int, shape[s].card as int);
        assert(under(sets[i], key).len() <= shape[s].card);
    }
    let t = op_set(Op::Intersect, sets);
    assert forall|key: u16| #[trigger] under(t, key).len() > 0 implies spans(shape, key) && under(
        t,
        key,
    ).len() <= meta_of(shape, key).card by {
        lemma_under_some(t, key);
        let v = choose|v: u32| #[trigger] t.contains(v) && hi(v) == key;
        assert forall|i: int| 0 <= i < sets.len() implies under(#[trigger] sets[i], key).len() > 0 by {
            lemma_under_some(sets[i], key);
            assert(sets[i].contains(v));
        }
        assert(needs(Op::Intersect, sets, key));
        let i = choose|i: int|
            0 <= i < os.len() && under((#[trigger] os[i]).set, key).len() <= meta_of(
                shape,
                key,
            ).card;
        lemma_set16(under(sets[i], key));
        assert forall|l: u16| under(t, key).contains(l) implies under(sets[i], key).contains(l) by {
            assert(sets[i].contains(join(key, l)));
        }
        vstd::set_lib::lemma_len_subset(under(t, key), under(sets[i], key));
    }
}

/// The shapes bound the union by the sum of their bounds.
pub open spec fn or_group(shapes: Seq<Shape>, t: Set<u32>) -> bool {
    forall|key: u16| #[trigger]
        under(t, key).len() > 0 ==> any_span(shapes, key) && under(t, key).len() <= cards(
            shapes,
            shapes.len() as int,
            key,
        )
}

/// OR: the sum of the bounds sizes the slot.
proof fn lemma_or_analyzed(plan: Plan, os: Seq<Opd>, shapes: Seq<Shape>, shape: Seq<Meta>)
    requires
        plan.wf(),
        plan.op == Op::Union,
        plan_of(plan.slots@, shape),
        shape_ok(shape),
        forall|key: u16| #[trigger] spans(shape, key) <==> any_span(shapes, key),
        forall|key: u16| #[trigger]
            spans(shape, key) ==> roomy(meta_of(shape, key)) && meta_of(shape, key).card == capped(
                cards(shapes, shapes.len() as int, key),
            ),
        or_group(shapes, op_set(Op::Union, opd_sets(os))),
    ensures
        analyzed(plan, os, shape),
{
    let sets = opd_sets(os);
    let slots = plan.slots@;
    let t = op_set(Op::Union, sets);
    assert forall|key: u16| #[trigger] under(t, key).len() > 0 implies spans(shape, key) && under(
        t,
        key,
    ).len() <= meta_of(shape, key).card by {
        lemma_set16(under(t, key));
        assert(any_span(shapes, key));
        assert(spans(shape, key));
        assert(under(t, key).len() <= cards(shapes, shapes.len() as int, key));
    }
    assert forall|key: u16| #[trigger] needs(Op::Union, sets, key) implies exists|s: int| #[trigger]
        planned(slots, s, key) && room(
            Op::Union,
            slots[s].capacity as int,
            sets,
            lead_shape(os)(key),
            key,
        ) by {
        assert(under(t, key).len() > 0);
        let s = choose|s: int| #[trigger] meta_at(shape, s, key);
        lemma_meta_of(shape, s, key);
        assert(slots[s].key == key);
        assert(planned(slots, s, key));
    }
}

/// One more input of a union.
proof fn lemma_or_next(shapes: Seq<Shape>, t: Set<u32>, shape: Shape, u: Set<u32>, w: Set<u32>)
    requires
        or_group(shapes, t),
        bounds(shape@, u),
        forall|v: u32| #[trigger] w.contains(v) <==> t.contains(v) || u.contains(v),
    ensures
        or_group(shapes.push(shape), w),
{
    let z = shapes.push(shape);
    let n = shapes.len() as int;
    assert forall|key: u16| #[trigger] under(w, key).len() > 0 implies any_span(z, key) && under(
        w,
        key,
    ).len() <= cards(z, n + 1, key) by {
        let (a, b, c) = (under(t, key), under(u, key), under(w, key));
        assert forall|l: u16| c.contains(l) == (a.contains(l) || b.contains(l)) by {
            assert(w.contains(join(key, l)) <==> t.contains(join(key, l)) || u.contains(
                join(key, l),
            ));
        }
        assert(c =~= a.union(b));
        lemma_set16(a);
        lemma_set16(b);
        vstd::set_lib::lemma_len_union(a, b);
        lemma_cards_prefix(shapes, shape, n, key);
        assert(z[n] == shape);
        if a.len() > 0 {
            let j = choose|j: int| 0 <= j < shapes.len() && spans((#[trigger] shapes[j])@, key);
            assert(z[j] == shapes[j]);
        } else {
            lemma_cards_nonneg(shapes, n, key);
        }
        if b.len() > 0 {
            assert(spans(z[n]@, key));
        }
        assert(cards(z, n + 1, key) == cards(z, n, key) + if spans(z[n]@, key) {
            meta_of(z[n]@, key).card as int
        } else {
            0
        });
    }
}

proof fn lemma_cards_prefix(shapes: Seq<Shape>, shape: Shape, n: int, key: u16)
    requires
        n <= shapes.len(),
    ensures
        cards(shapes.push(shape), n, key) == cards(shapes, n, key),
    decreases n,
{
    if n > 0 {
        lemma_cards_prefix(shapes, shape, n - 1, key);
    }
}

proof fn lemma_cards_nonneg(shapes: Seq<Shape>, n: int, key: u16)
    ensures
        cards(shapes, n, key) >= 0,
    decreases n,
{
    if n > 0 {
        lemma_cards_nonneg(shapes, n - 1, key);
    }
}

/// DIFF: the first operand's container as it is, and what it shrinks to, size the slot.
proof fn lemma_diff_analyzed(plan: Plan, a: Opd, b: Opd, shapes: Seq<Shape>, shape: Seq<Meta>)
    requires
        plan.wf(),
        plan.op == Op::Diff,
        plan_of(plan.slots@, shape),
        shape_ok(shape),
        shapes.len() == 2,
        shapes[0]@ == a.shape,
        shapes[1]@ == b.shape,
        shape_ok(a.shape),
        bounds(a.shape, a.set),
        bounds(b.shape, b.set),
        shape.len() == a.shape.len(),
        forall|i: int|
            0 <= i < shape.len() ==> diff_meta(#[trigger] shape[i], a.shape[i], shapes),
    ensures
        analyzed(plan, seq![a, b], shape),
{
    let os = seq![a, b];
    let sets = opd_sets(os);
    let slots = plan.slots@;
    assert(sets[0] == a.set && sets[1] == b.set);
    assert forall|key: u16| #[trigger] under(a.set, key).len() > 0 implies spans(shape, key) && under(
        a.set,
        key,
    ).len() <= meta_of(shape, key).card by {
        let s = choose|s: int| #[trigger] meta_at(a.shape, s, key);
        lemma_meta_of(a.shape, s, key);
        assert(diff_meta(shape[s], a.shape[s], shapes));
        assert(meta_at(shape, s, key));
        lemma_meta_of(shape, s, key);
    }
    assert forall|key: u16| #[trigger] needs(Op::Diff, sets, key) implies exists|s: int| #[trigger]
        planned(slots, s, key) && room(
            Op::Diff,
            slots[s].capacity as int,
            sets,
            lead_shape(os)(key),
            key,
        ) by {
        assert(under(a.set, key).len() > 0);
        let s = choose|s: int| #[trigger] meta_at(a.shape, s, key);
        lemma_meta_of(a.shape, s, key);
        assert(diff_meta(shape[s], a.shape[s], shapes));
        assert(slots[s].key == key);
        assert(planned(slots, s, key));
        lemma_shrink(under(a.set, key).len() as int, a.shape[s].card as int);
        if exists|i: int| 1 <= i < sets.len() && under(#[trigger] sets[i], key).len() > 0 {
            assert(under(b.set, key).len() > 0);
            assert(spans(shapes[1]@, key));
            assert(rest_span(shapes, key));
        }
    }
    let t = op_set(Op::Diff, sets);
    assert forall|key: u16| #[trigger] under(t, key).len() > 0 implies spans(shape, key) && under(
        t,
        key,
    ).len() <= meta_of(shape, key).card by {
        let (x, y) = (under(t, key), under(a.set, key));
        lemma_set16(x);
        lemma_set16(y);
        assert forall|l: u16| x.contains(l) implies y.contains(l) by {
            assert(sets[0].contains(join(key, l)));
        }
        vstd::set_lib::lemma_len_subset(x, y);
        assert(under(a.set, key).len() > 0);
    }
}

// --- the manifest ---------------------------------------------------------------------

/// A flat, post-order evaluation manifest, with this subtree's output shape for the
/// parent's analysis. Built once by the combinators; run with no further analysis.
struct FoldPlan<'a> {
    steps: Vec<Step<'a>>,
    shape: Shape,
    /// The most operands there are on the stack at once.
    max_depth: usize,
    /// Whether this is an AND whose keys are fewer than some child's: the only node where
    /// a mask prunes anything.
    narrows: bool,
    /// The operands of the last fold.
    opds: Ghost<Seq<Opd>>,
}

impl<'a> FoldPlan<'a> {
    spec fn op(self) -> Op {
        self.steps@.last()->Combine_1.op
    }

    spec fn set(self) -> Set<u32> {
        op_set(self.op(), opd_sets(self.opds@))
    }

    spec fn opd(self) -> Opd {
        Opd { set: self.set(), shape: self.shape@ }
    }

    spec fn body(self) -> Seq<Step<'a>> {
        strip(self.steps@.drop_last())
    }

    /// The keys whose leaf containers are read: those of the shape where that prunes any.
    spec fn mask(self) -> Set<u16> {
        if self.narrows {
            Set::new(|key: u16| spans(self.shape@, key))
        } else {
            Set::full()
        }
    }

    spec fn bill(self, c: Account, limits: Limits) -> (Account, bool) {
        spent(self.steps@, Seq::empty(), Seq::empty(), self.mask(), limits, c)
    }

    spec fn wf(self) -> bool {
        &&& shape_ok(self.shape@)
        &&& self.steps@.len() > 0
        &&& self.steps@.last() matches Step::Combine(k, _) && k == self.opds@.len()
        &&& self.opds@.len() <= self.body().len()
        &&& resolved(self.steps@)
        &&& pushes(self.steps@, seq![self.opd()])
        &&& pushes(strip(self.steps@), seq![self.opd()])
        &&& pushes(self.body(), self.opds@)
        &&& bounds(self.shape@, self.set())
        &&& self.op() == Op::Intersect ==> and_group(self.shape@, self.opds@)
        &&& level(self.steps@)
        &&& height(self.steps@) == 1
        &&& peak(self.steps@) == self.max_depth < usize::MAX
    }
}

enum Node<'a> {
    /// A borrowed leaf.
    Leaf(FrozenBitmapView<'a>),
    /// A shared owned leaf.
    Owned(Arc<FrozenBitmap>),
    /// An analyzed AND, OR or DIFF subtree.
    Combined(FoldPlan<'a>),
}

/// A boolean combination of frozen bitmaps. Build it with [`leaf`](Self::leaf),
/// [`owned`](Self::owned), [`and`](Self::and), [`or`](Self::or) and
/// [`difference`](Self::difference), then evaluate it with
/// [`materialize`](Self::materialize).
pub struct BitmapExpr<'a> {
    node: Node<'a>,
}

impl<'a> BitmapExpr<'a> {
    #[verifier::type_invariant]
    closed spec fn inv(self) -> bool {
        self.node matches Node::Combined(p) ==> p.wf()
    }

    /// The values the expression stands for.
    pub closed spec fn set(self) -> Set<u32> {
        match self.node {
            Node::Leaf(v) => v@,
            Node::Owned(b) => (*b).set(),
            Node::Combined(p) => p.set(),
        }
    }

    /// The bytes of a leaf.
    pub closed spec fn stored(self) -> Option<Seq<u8>> {
        match self.node {
            Node::Leaf(v) => Some(v.src()),
            Node::Owned(b) => Some((*b).src()),
            Node::Combined(_) => None,
        }
    }

    /// The most operands that are on the stack at once while the tree is evaluated; none for
    /// a leaf.
    pub closed spec fn depth(self) -> nat {
        match self.node {
            Node::Combined(p) => p.max_depth as nat,
            _ => 0,
        }
    }

    /// How working memory that stood at `c` stands once the tree was evaluated under
    /// `limits`, and whether no request was refused. It follows from the steps of the tree
    /// and the values of its leaves; a leaf asks for none.
    pub closed spec fn bill(self, c: Account, limits: Limits) -> (Account, bool) {
        match self.node {
            Node::Combined(p) => p.bill(c, limits),
            _ => (c, true),
        }
    }

    /// The operands there are at once while the expression is one of an op's.
    pub open spec fn span(self) -> int {
        if self.depth() == 0 {
            1
        } else {
            self.depth() as int
        }
    }

    /// Operands the expression is to an op above it: those of its own op if that is the same
    /// AND or OR, else itself.
    pub closed spec fn fan(self, op: Op) -> int {
        match self.node {
            Node::Combined(p) => if op != Op::Diff && p.op() == op && p.opds@.len() > 0 {
                p.opds@.len() as int
            } else {
                1
            },
            _ => 1,
        }
    }
}

/// Operands of an AND or OR over the first `n` expressions.
pub open spec fn fans<'a>(op: Op, es: Seq<BitmapExpr<'a>>, n: int) -> int
    decreases n,
{
    if n <= 0 {
        0
    } else {
        fans(op, es, n - 1) + es[n - 1].fan(op)
    }
}

/// Depth of the stack while the first `n` expressions are evaluated, each on top of the
/// operands of those before it.
pub open spec fn depths<'a>(op: Op, es: Seq<BitmapExpr<'a>>, n: int) -> int
    decreases n,
{
    if n <= 0 {
        0
    } else {
        let (was, with) = (depths(op, es, n - 1), fans(op, es, n - 1) + es[n - 1].span());
        if with > was {
            with
        } else {
            was
        }
    }
}

/// How deep the stack of an AND or OR over `es` gets, and what it is to an op above it.
pub open spec fn stacked<'a>(op: Op, es: Seq<BitmapExpr<'a>>, r: BitmapExpr<'a>) -> bool {
    let (d, f) = (depths(op, es, es.len() as int), fans(op, es, es.len() as int));
    &&& r.depth() == (if d > 1 {
        d
    } else {
        1
    })
    &&& forall|o: Op| #[trigger]
        r.fan(o) == (if o == op && f > 0 {
            f
        } else {
            1
        })
}

/// The values of some expressions.
pub open spec fn expr_sets<'a>(es: Seq<BitmapExpr<'a>>) -> Seq<Set<u32>> {
    Seq::new(es.len(), |i: int| es[i].set())
}

/// What splicing a child into its parent contributed.
struct Spliced<'a> {
    shape: Shape,
    /// Operands contributed.
    net: usize,
    /// Peak of the stack in its steps.
    depth: usize,
    /// The child is one operand whose result may be empty.
    guardable: bool,
    /// The steps appended.
    seg: Ghost<Seq<Step<'a>>>,
    /// The operands they push.
    os: Ghost<Seq<Opd>>,
}

impl<'a> Spliced<'a> {
    spec fn wf(self, parent: Op, set: Set<u32>) -> bool {
        &&& shape_ok(self.shape@)
        &&& bounds(self.shape@, set)
        &&& self.net == self.os@.len()
        &&& 0 < self.net <= self.seg@.len()
        &&& self.net <= strip(self.seg@).len()
        &&& resolved(self.seg@)
        &&& pushes(self.seg@, self.os@)
        &&& pushes(strip(self.seg@), self.os@)
        &&& parent == Op::Intersect ==> and_group(self.shape@, self.os@)
        &&& parent != Op::Diff ==> op_set(parent, opd_sets(self.os@)) == set
        &&& parent == Op::Diff || self.guardable ==> self.os@ == seq![
            Opd { set, shape: self.shape@ },
        ]
        &&& level(self.seg@)
        &&& height(self.seg@) == self.net
        &&& peak(self.seg@) == self.depth
    }
}

/// One operand alone.
proof fn lemma_single(o: Opd)
    ensures
        op_set(Op::Intersect, opd_sets(seq![o])) == o.set,
        op_set(Op::Union, opd_sets(seq![o])) == o.set,
        bounds(o.shape, o.set) ==> and_group(o.shape, seq![o]),
{
    let s = opd_sets(seq![o]);
    assert(s[0] == o.set);
    assert forall|v: u32| op_set(Op::Intersect, s).contains(v) == o.set.contains(v) by {
        if o.set.contains(v) {
            assert forall|i: int| 0 <= i < s.len() implies (#[trigger] s[i]).contains(v) by {}
        }
    }
    assert(op_set(Op::Intersect, s) =~= o.set);
    assert forall|v: u32| op_set(Op::Union, s).contains(v) == o.set.contains(v) by {
        if o.set.contains(v) {
            assert(s[0].contains(v));
        }
    }
    assert(op_set(Op::Union, s) =~= o.set);
    if bounds(o.shape, o.set) {
        assert forall|key: u16| #[trigger] needs(Op::Intersect, s, key) implies spans(o.shape, key)
            && exists|i: int|
            0 <= i < seq![o].len() && under((#[trigger] seq![o][i]).set, key).len() <= meta_of(
                o.shape,
                key,
            ).card by {
            assert(under(s[0], key).len() > 0);
            assert(under(seq![o][0].set, key).len() <= meta_of(o.shape, key).card);
        }
    }
}

/// Splice a leaf.
fn splice_leaf<'a>(
    shape: Shape,
    step: Step<'a>,
    steps: &mut Vec<Step<'a>>,
    Ghost(b): Ghost<Seq<u8>>,
    Ghost(set): Ghost<Set<u32>>,
) -> (r: Spliced<'a>)
    requires
        shape_ok(shape@),
        bounds(shape@, set),
        step matches Step::Leaf(v) ==> v.src() == b && v@ == set,
        step matches Step::Owned(x) ==> (*x).src() == b && (*x).set() == set,
        step is Leaf || step is Owned,
        forall|key: u16| #[trigger]
            spans(shape@, key) ==> meta_of(shape@, key).cap == frozen_stored(b, key),
    ensures
        final(steps)@ == old(steps)@ + r.seg@,
        forall|parent: Op| #[trigger] r.wf(parent, set),
        !r.guardable,
        r.net == 1,
        r.depth == 1,
{
    let ghost o = Opd { set, shape: shape@ };
    let ghost seg = seq![step];
    let ghost os = seq![o];
    proof {
        assert forall|key: u16| #[trigger] under(o.set, key).len() > 0 implies spans(o.shape, key)
            && frozen_stored(b, key) <= meta_of(o.shape, key).cap by {}
        lemma_pushes_leaf(step, b, o);
        assert(seg.drop_last() =~= Seq::<Step>::empty());
        assert(strip(seg.drop_last()) =~= Seq::<Step>::empty());
        assert(strip(seg) =~= seg);
        lemma_single(o);
        assert(steps@.push(step) =~= steps@ + seg);
        lemma_height_strip(seg);
        assert(height(seg.drop_last()) == 0 && peak(seg.drop_last()) == 0);
    }
    steps.push(step);
    Spliced { shape, net: 1, depth: 1, guardable: false, seg: Ghost(seg), os: Ghost(os) }
}

/// Take the steps that are not guards.
#[verifier::loop_isolation(false)]
fn without_guards<'a>(code: Vec<Step<'a>>) -> (r: Vec<Step<'a>>)
    ensures
        r@ == strip(code@),
{
    let ghost all = code@;
    let mut code: Vec<Step<'a>> = code;
    let mut rev: Vec<Step<'a>> = Vec::new();
    proof {
        lemma_strip_both(code@, Seq::<Step>::empty());
        assert(strip(all) =~= strip(code@) + rev@.reverse());
    }
    loop
        invariant
            strip(all) == strip(code@) + rev@.reverse(),
        decreases code.len(),
    {
        let ghost before = code@;
        match code.pop() {
            None => {
                assert(strip(all) =~= rev@.reverse());
                break;
            },
            Some(s) => {
                assert(code@ =~= before.drop_last());
                match s {
                    Step::Guard { .. } => {},
                    s => {
                        let ghost r0 = rev@;
                        rev.push(s);
                        proof {
                            assert(rev@.reverse() =~= seq![s] + r0.reverse());
                            assert(strip(all) =~= strip(code@) + rev@.reverse());
                        }
                    },
                }
            },
        }
    }
    let mut out: Vec<Step<'a>> = Vec::new();
    assert(strip(all) =~= out@ + rev@.reverse());
    loop
        invariant
            strip(all) == out@ + rev@.reverse(),
        decreases rev.len(),
    {
        let ghost r0 = rev@;
        match rev.pop() {
            None => {
                assert(out@ =~= strip(all));
                return out;
            },
            Some(s) => {
                let ghost o0 = out@;
                out.push(s);
                proof {
                    assert(r0.reverse() =~= seq![s] + rev@.reverse());
                    assert(out@ + rev@.reverse() =~= o0 + r0.reverse());
                }
            },
        }
    }
}

/// Append `child`'s steps, flattening it when it is a fold of the same op over operands of
/// its own, and hand out its shape.
fn splice<'a>(child: BitmapExpr<'a>, parent: Op, steps: &mut Vec<Step<'a>>) -> (r: Spliced<'a>)
    ensures
        final(steps)@ == old(steps)@ + r.seg@,
        r.wf(parent, child.set()),
        r.net == child.fan(parent),
        r.depth == child.span(),
{
    proof {
        use_type_invariant(&child);
    }
    match child.node {
        Node::Leaf(v) => {
            let shape: Shape = view_shape(&v);
            splice_leaf(shape, Step::Leaf(v), steps, Ghost(v.src()), Ghost(v@))
        },
        Node::Owned(b) => {
            let view: FrozenBitmapView = b.view();
            let shape: Shape = view_shape(&view);
            let ghost (src, set) = (view.src(), view@);
            splice_leaf(shape, Step::Owned(b), steps, Ghost(src), Ghost(set))
        },
        Node::Combined(fp) => {
            let ghost p = fp;
            proof {
                lemma_peak(p.steps@);
            }
            let FoldPlan { steps: code, shape, max_depth, narrows: _, opds } = fp;
            let mut code: Vec<Step<'a>> = code;
            let n: usize = code.len();
            let flatten: Option<usize> = match &code[n - 1] {
                Step::Combine(k, plan) => {
                    let same: bool = match (parent, plan.op) {
                        (Op::Intersect, Op::Intersect) => true,
                        (Op::Union, Op::Union) => true,
                        _ => false,
                    };
                    // A fold of nothing has no operands to inline.
                    if same && *k > 0 {
                        Some(*k)
                    } else {
                        None
                    }
                },
                _ => None,
            };
            match flatten {
                Some(k) => {
                    // The child's guards jumped past its own fold, which goes away.
                    let ghost c0 = code@;
                    let _last: Option<Step<'a>> = code.pop();
                    assert(code@ =~= c0.drop_last());
                    let mut seg: Vec<Step<'a>> = without_guards(code);
                    let ghost s = seg@;
                    proof {
                        lemma_strip_ok(c0.drop_last());
                        lemma_height_strip(c0.drop_last());
                        lemma_peak(c0.drop_last());
                    }
                    steps.append(&mut seg);
                    Spliced { shape, net: k, depth: max_depth, guardable: false, seg: Ghost(s), os: opds }
                },
                None => {
                    let ghost s = code@;
                    let ghost os = seq![p.opd()];
                    proof {
                        lemma_single(p.opd());
                        lemma_strip_both(s.drop_last(), seq![s.last()]);
                        assert(s.drop_last() + seq![s.last()] =~= s);
                        let t = seq![s.last()];
                        assert(t.drop_last() =~= Seq::<Step>::empty());
                        assert(strip(t.drop_last()) =~= Seq::<Step>::empty());
                        assert(strip(t) =~= t);
                    }
                    steps.append(&mut code);
                    Spliced {
                        shape,
                        net: 1,
                        depth: max_depth,
                        guardable: true,
                        seg: Ghost(s),
                        os: Ghost(os),
                    }
                },
            }
        },
    }
}

/// Make every open guard land past the last step.
fn patch_guards<'a>(steps: &mut Vec<Step<'a>>)
    ensures
        final(steps)@ == patch(old(steps)@, old(steps)@.len() as int),
{
    let n: usize = steps.len();
    let ghost s0 = steps@;
    let mut i: usize = 0;
    while i < n
        invariant
            i <= n == steps.len(),
            s0.len() == n,
            forall|k: int| 0 <= k < i ==> #[trigger] steps@[k] == patch(s0, n as int)[k],
            forall|k: int| i <= k < n ==> #[trigger] steps@[k] == s0[k],
        decreases n - i,
    {
        let open: Option<usize> = match &steps[i] {
            Step::Guard { skip, pop } => if *skip == 0 {
                Some(*pop)
            } else {
                None
            },
            _ => None,
        };
        assert(steps@[i as int] == s0[i as int]);
        match open {
            Some(pop) => {
                steps[i] = Step::Guard { skip: n - i, pop };
            },
            None => {},
        }
        assert(steps@[i as int] == patch(s0, n as int)[i as int]);
        i = i + 1;
    }
    assert(steps@ =~= patch(s0, n as int));
}

/// A group keeps its bound when operands join it.
proof fn lemma_and_more(shape: Seq<Meta>, os: Seq<Opd>, more: Seq<Opd>)
    requires
        and_group(shape, os),
        os.len() > 0,
    ensures
        and_group(shape, os + more),
        and_group(shape, more + os),
{
    let (a, b, c) = (opd_sets(os), opd_sets(os + more), opd_sets(more + os));
    assert forall|key: u16| #[trigger] needs(Op::Intersect, b, key) implies spans(shape, key) && exists|
        i: int,
    |
        0 <= i < (os + more).len() && under((#[trigger] (os + more)[i]).set, key).len() <= meta_of(
            shape,
            key,
        ).card by {
        assert forall|i: int| 0 <= i < a.len() implies under(#[trigger] a[i], key).len() > 0 by {
            assert(under(b[i], key).len() > 0);
        }
        assert(needs(Op::Intersect, a, key));
        let i = choose|i: int|
            0 <= i < os.len() && under((#[trigger] os[i]).set, key).len() <= meta_of(
                shape,
                key,
            ).card;
        assert((os + more)[i] == os[i]);
    }
    assert forall|key: u16| #[trigger] needs(Op::Intersect, c, key) implies spans(shape, key) && exists|
        i: int,
    |
        0 <= i < (more + os).len() && under((#[trigger] (more + os)[i]).set, key).len() <= meta_of(
            shape,
            key,
        ).card by {
        assert forall|i: int| 0 <= i < a.len() implies under(#[trigger] a[i], key).len() > 0 by {
            assert(under(c[more.len() + i], key).len() > 0);
        }
        assert(needs(Op::Intersect, a, key));
        let i = choose|i: int|
            0 <= i < os.len() && under((#[trigger] os[i]).set, key).len() <= meta_of(
                shape,
                key,
            ).card;
        assert((more + os)[more.len() + i] == os[i]);
    }
}

/// Flattening keeps the result of an AND or OR: an op over the operands of the children is
/// the op over the children.
proof fn lemma_flatten(op: Op, os: Seq<Opd>, cs: Seq<Set<u32>>, more: Seq<Opd>, c: Set<u32>)
    requires
        op == Op::Intersect || op == Op::Union,
        op_set(op, opd_sets(os)) == op_set(op, cs),
        os.len() > 0 <==> cs.len() > 0,
        op_set(op, opd_sets(more)) == c,
        more.len() > 0,
    ensures
        op_set(op, opd_sets(os + more)) == op_set(op, cs.push(c)),
{
    let (a, m, b, z) = (opd_sets(os), opd_sets(more), opd_sets(os + more), cs.push(c));
    let n = cs.len() as int;
    assert forall|v: u32| op_set(op, b).contains(v) == op_set(op, z).contains(v) by {
        assert(op_set(op, a).contains(v) == op_set(op, cs).contains(v));
        assert(op_set(op, m).contains(v) == c.contains(v));
        match op {
            Op::Intersect => {
                if op_set(op, b).contains(v) {
                    assert forall|i: int| 0 <= i < a.len() implies (#[trigger] a[i]).contains(v) by {
                        assert(b[i].contains(v));
                    }
                    assert forall|i: int| 0 <= i < m.len() implies (#[trigger] m[i]).contains(v) by {
                        assert(b[os.len() + i].contains(v));
                    }
                    assert(c.contains(v));
                    assert forall|i: int| 0 <= i < z.len() implies (#[trigger] z[i]).contains(v) by {
                        if i < n {
                            assert(op_set(op, cs).contains(v));
                            assert(cs[i].contains(v));
                        }
                    }
                }
                if op_set(op, z).contains(v) {
                    assert(z[n].contains(v));
                    assert(c.contains(v));
                    if cs.len() > 0 {
                        assert forall|i: int| 0 <= i < cs.len() implies (#[trigger] cs[i]).contains(v) by {
                            assert(z[i].contains(v));
                        }
                        assert(op_set(op, cs).contains(v));
                    }
                    assert forall|i: int| 0 <= i < b.len() implies (#[trigger] b[i]).contains(v) by {
                        if i < os.len() {
                            assert(a[i].contains(v));
                        } else {
                            assert(m[i - os.len()].contains(v));
                        }
                    }
                }
            },
            _ => {
                if op_set(op, b).contains(v) {
                    let i = choose|i: int| 0 <= i < b.len() && (#[trigger] b[i]).contains(v);
                    if i < os.len() {
                        assert(a[i].contains(v));
                        let k = choose|k: int| 0 <= k < cs.len() && (#[trigger] cs[k]).contains(v);
                        assert(z[k].contains(v));
                    } else {
                        assert(m[i - os.len()].contains(v));
                        assert(z[n].contains(v));
                    }
                }
                if op_set(op, z).contains(v) {
                    let k = choose|k: int| 0 <= k < z.len() && (#[trigger] z[k]).contains(v);
                    if k < n {
                        assert(cs[k].contains(v));
                        let i = choose|i: int| 0 <= i < a.len() && (#[trigger] a[i]).contains(v);
                        assert(b[i].contains(v));
                    } else {
                        let i = choose|i: int| 0 <= i < m.len() && (#[trigger] m[i]).contains(v);
                        assert(b[os.len() + i].contains(v));
                    }
                }
            },
        }
    }
    assert(op_set(op, b) =~= op_set(op, z));
}

/// The state of a combinator after some children.
spec fn building<'a>(
    op: Op,
    steps: Seq<Step<'a>>,
    os: Seq<Opd>,
    shapes: Seq<Shape>,
    cs: Seq<Set<u32>>,
) -> bool {
    &&& os.len() <= strip(steps).len() <= steps.len()
    &&& op == Op::Intersect ==> reaches(steps, os, os.len() as int)
    &&& op == Op::Union ==> reaches(steps, os, 0) && resolved(steps)
    &&& pushes(strip(steps), os)
    &&& shapes.len() == cs.len()
    &&& forall|j: int| 0 <= j < shapes.len() ==> shape_ok((#[trigger] shapes[j])@)
    &&& op == Op::Intersect ==> forall|j: int|
        0 <= j < shapes.len() ==> and_group((#[trigger] shapes[j])@, os)
    &&& op == Op::Union ==> or_group(shapes, op_set(Op::Union, opd_sets(os)))
    &&& op_set(op, opd_sets(os)) == op_set(op, cs)
    &&& os.len() > 0 <==> cs.len() > 0
    &&& level(steps)
    &&& height(steps) == os.len()
}

/// One more child.
proof fn lemma_building<'a>(
    op: Op,
    steps: Seq<Step<'a>>,
    os: Seq<Opd>,
    shapes: Seq<Shape>,
    cs: Seq<Set<u32>>,
    r: Spliced<'a>,
    c: Set<u32>,
)
    requires
        op == Op::Intersect || op == Op::Union,
        building(op, steps, os, shapes, cs),
        r.wf(op, c),
    ensures
        building(op, steps + r.seg@, os + r.os@, shapes.push(r.shape), cs.push(c)),
{
    let (more, seg) = (r.os@, r.seg@);
    let all = os + more;
    let upto = if op == Op::Intersect { os.len() as int } else { 0 };
    let next = if op == Op::Intersect { all.len() as int } else { 0 };
    lemma_reaches_both(steps, os, upto, seg, more, next);
    lemma_strip_both(steps, seg);
    lemma_strip_ok(steps);
    lemma_strip_ok(seg);
    lemma_pushes_both(strip(steps), os, strip(seg), more);
    lemma_flatten(op, os, cs, more, c);
    lemma_height_both(steps, seg);
    lemma_level_both(steps, seg);
    let z = shapes.push(r.shape);
    assert forall|j: int| 0 <= j < z.len() implies shape_ok((#[trigger] z[j])@) by {
        if j < shapes.len() {
            assert(shape_ok(shapes[j]@));
        }
    }
    if op == Op::Intersect {
        assert forall|j: int| 0 <= j < z.len() implies and_group((#[trigger] z[j])@, all) by {
            if j < shapes.len() {
                assert(and_group(shapes[j]@, os));
                lemma_and_more(shapes[j]@, os, more);
            } else {
                lemma_and_more(r.shape@, more, os);
            }
        }
    } else {
        assert(resolved(steps + seg)) by {
            let w = steps + seg;
            assert forall|i: int| 0 <= i < w.len() implies !crate::machine::open_guard(#[trigger] w[i]) by {
                if i < steps.len() {
                    assert(!crate::machine::open_guard(steps[i]));
                } else {
                    assert(!crate::machine::open_guard(seg[i - steps.len()]));
                }
            }
        }
        let (t, w) = (op_set(op, opd_sets(os)), op_set(op, opd_sets(all)));
        assert forall|v: u32| #[trigger] w.contains(v) <==> t.contains(v) || c.contains(v) by {
            let (a, m, b) = (opd_sets(os), opd_sets(more), opd_sets(all));
            if w.contains(v) {
                let i = choose|i: int| 0 <= i < b.len() && (#[trigger] b[i]).contains(v);
                if i < os.len() {
                    assert(a[i].contains(v));
                } else {
                    assert(m[i - os.len()].contains(v));
                }
            }
            if t.contains(v) {
                let i = choose|i: int| 0 <= i < a.len() && (#[trigger] a[i]).contains(v);
                assert(b[i].contains(v));
            }
            if c.contains(v) {
                let i = choose|i: int| 0 <= i < m.len() && (#[trigger] m[i]).contains(v);
                assert(b[os.len() + i].contains(v));
            }
        }
        lemma_or_next(shapes, t, r.shape, c, w);
    }
}

/// A guard after the operand just pushed keeps the state of an AND.
proof fn lemma_building_guard<'a>(
    steps: Seq<Step<'a>>,
    os: Seq<Opd>,
    shapes: Seq<Shape>,
    cs: Seq<Set<u32>>,
    pop: usize,
)
    requires
        building(Op::Intersect, steps, os, shapes, cs),
        os.len() > 0,
        pop == os.len(),
    ensures
        building(
            Op::Intersect,
            steps.push(Step::Guard { skip: 0, pop }),
            os,
            shapes,
            cs,
        ),
{
    let g: Step<'a> = Step::Guard { skip: 0, pop };
    lemma_reaches_guard(steps, os, os.len() as int, pop);
    lemma_level_guard(steps, pop);
    assert(steps.push(g).drop_last() =~= steps);
    assert(strip(steps.push(g)) == strip(steps));
}

/// The last fold completes the manifest.
proof fn lemma_built<'a>(
    steps: Seq<Step<'a>>,
    os: Seq<Opd>,
    upto: int,
    plan: Plan,
    shape: Seq<Meta>,
    k: usize,
)
    requires
        reaches(steps, os, upto),
        pushes(strip(steps), os),
        steps.len() < usize::MAX,
        k == os.len(),
        analyzed(plan, os, shape),
        upto > 0 ==> plan.op == Op::Intersect || plan.op == Op::Diff && upto <= 1,
        level(steps),
        height(steps) == k,
    ensures
        ({
            let code = patch(steps.push(Step::Combine(k, plan)), (steps.len() + 1) as int);
            let o = Opd { set: op_set(plan.op, opd_sets(os)), shape };
            &&& code.len() == steps.len() + 1
            &&& code.last() == (Step::Combine(k, plan))
            &&& strip(code.drop_last()) == strip(steps)
            &&& resolved(code)
            &&& pushes(code, seq![o])
            &&& pushes(strip(code), seq![o])
            &&& level(code)
            &&& height(code) == 1
            &&& peak(code) == (if peak(steps) > 1 {
                peak(steps)
            } else {
                1
            })
            &&& peak(code) < usize::MAX
        }),
{
    let n = (steps.len() + 1) as int;
    let c: Step<'a> = Step::Combine(k, plan);
    let code = patch(steps.push(c), n);
    let o = Opd { set: op_set(plan.op, opd_sets(os)), shape };
    assert(code =~= patch(steps, n).push(c));
    lemma_pushes_op(steps, os, upto, plan, shape, k);
    lemma_strip_patch(steps, n);
    assert(code.drop_last() =~= patch(steps, n));
    assert forall|i: int| 0 <= i < code.len() implies !crate::machine::open_guard(#[trigger] code[i]) by {}
    let s = strip(steps);
    lemma_strip_ok(steps);
    lemma_reaches(s, os, 0);
    lemma_pushes_op(s, os, 0, plan, shape, k);
    lemma_patch_resolved(s, (s.len() + 1) as int);
    assert(strip(code) == s.push(c));
    lemma_level_fold(steps, c);
    lemma_peak(steps);
}

impl<'a> FoldPlan<'a> {
    /// Fold `children` under `op`, flattening same-op children.
    fn combine(op: Op, children: Vec<BitmapExpr<'a>>) -> (r: Self)
        requires
            op == Op::Intersect || op == Op::Union,
        ensures
            r.wf(),
            r.set() == op_set(op, expr_sets(children@)),
            r.op() == op,
            r.opds@.len() == fans(op, children@, children@.len() as int),
            r.max_depth == (if depths(op, children@, children@.len() as int) > 1 {
                depths(op, children@, children@.len() as int)
            } else {
                1
            }),
    {
        let ghost all = children@;
        let ghost sets = expr_sets(all);
        let n: usize = children.len();
        let mut rev: Vec<BitmapExpr<'a>> = reversed(children);
        let mut steps: Vec<Step<'a>> = Vec::new();
        let mut shapes: Vec<Shape> = Vec::new();
        let mut weights: Vec<usize> = Vec::new();
        let mut arity: usize = 0;
        let mut max_depth: usize = 0;
        let mut widest: usize = 0;
        let mut i: usize = 0;
        let ghost mut os: Seq<Opd> = Seq::empty();
        proof {
            lemma_pushes_none();
            let e = Seq::<Step<'a>>::empty();
            assert(steps@ =~= e);
            assert(strip(e) =~= e);
            lemma_reaches(e, os, 0);
            assert(sets.take(0) =~= Seq::<Set<u32>>::empty());
            assert(opd_sets(os) =~= sets.take(0));
            assert(op_set(Op::Union, opd_sets(os)) =~= Set::<u32>::empty());
            assert forall|key: u16| #[trigger] under(Set::<u32>::empty(), key).len() == 0 by {
                assert(under(Set::<u32>::empty(), key) =~= Set::<u16>::empty());
            }
        }
        while i < n
            invariant
                op == Op::Intersect || op == Op::Union,
                i <= n,
                n == all.len(),
                sets == expr_sets(all),
                rev.len() == n - i,
                forall|k: int| 0 <= k < rev.len() ==> #[trigger] rev@[k] == all[n - 1 - k],
                building(op, steps@, os, shapes@, sets.take(i as int)),
                arity == os.len(),
                max_depth == peak(steps@),
                arity == fans(op, all, i as int),
                max_depth == depths(op, all, i as int),
                weights.len() == i,
                shapes.len() == i,
            decreases n - i,
        {
            let ghost rev0 = rev@;
            match rev.pop() {
                None => {
                    assert(false);
                },
                Some(child) => {
                    assert(child == all[i as int]);
                    let ghost s0 = steps@;
                    let r: Spliced<'a> = splice(child, op, &mut steps);
                    proof {
                        lemma_building(op, s0, os, shapes@, sets.take(i as int), r, child.set());
                        assert(sets.take(i as int).push(child.set()) =~= sets.take(i + 1));
                        os = os + r.os@;
                        lemma_height_both(s0, r.seg@);
                        lemma_peak(r.seg@);
                    }
                    let len: usize = steps.len();
                    if arity + r.depth > max_depth {
                        max_depth = arity + r.depth;
                    }
                    arity = arity + r.net;
                    weights.push(r.net);
                    if r.shape.len() > widest {
                        widest = r.shape.len();
                    }
                    shapes.push(r.shape);
                    match op {
                        Op::Intersect => {
                            if r.guardable {
                                proof {
                                    lemma_building_guard(steps@, os, shapes@, sets.take(i + 1), arity);
                                    lemma_level_guard(steps@, arity);
                                }
                                steps.push(Step::Guard { skip: 0, pop: arity });
                            }
                        },
                        _ => {},
                    }
                },
            }
            i = i + 1;
        }
        assert(sets.take(n as int) =~= sets);
        let shape: Shape = match op {
            Op::Intersect => intersect_shape(&shapes),
            _ => union_shape(&shapes, &weights),
        };
        let narrows: bool = match op {
            Op::Intersect => arity >= 2 && shape.len() < widest,
            _ => false,
        };
        let plan: Plan = to_plan(op, &shape);
        let ghost p = plan;
        let ghost body = steps@;
        steps.push(Step::Combine(arity, plan));
        let len: usize = steps.len();
        proof {
            let upto = if op == Op::Intersect { os.len() as int } else { 0 };
            if op == Op::Intersect {
                lemma_and_analyzed(p, os, shapes@, shape@);
            } else {
                lemma_or_analyzed(p, os, shapes@, shape@);
            }
            lemma_built(body, os, upto, p, shape@, arity);
        }
        patch_guards(&mut steps);
        if max_depth < 1 {
            max_depth = 1;
        }
        FoldPlan { steps, shape, max_depth, narrows, opds: Ghost(os) }
    }

    /// `lhs` minus `rhs`. Never flattened: DIFF is not associative.
    fn diff(lhs: BitmapExpr<'a>, rhs: BitmapExpr<'a>) -> (r: Self)
        ensures
            r.wf(),
            r.set() == lhs.set().difference(rhs.set()),
            r.op() == Op::Diff,
            r.max_depth == (if lhs.span() > 1 + rhs.span() {
                lhs.span()
            } else {
                1 + rhs.span()
            }),
    {
        let mut steps: Vec<Step<'a>> = Vec::new();
        let ghost (sa, sb) = (lhs.set(), rhs.set());
        let a: Spliced<'a> = splice(lhs, Op::Diff, &mut steps);
        let ghost (oa, s0) = (a.os@, a.seg@);
        proof {
            assert(steps@ =~= s0);
            lemma_reaches(s0, oa, 1);
        }
        // An empty left-hand side makes the difference empty.
        if a.guardable {
            proof {
                lemma_reaches_guard(s0, oa, 1, 1);
                lemma_level_guard(s0, 1);
            }
            steps.push(Step::Guard { skip: 0, pop: 1 });
            proof {
                assert(steps@.drop_last() =~= s0);
                assert(strip(steps@) == strip(s0));
            }
        }
        let ghost s1 = steps@;
        let b: Spliced<'a> = splice(rhs, Op::Diff, &mut steps);
        let ghost os = oa + b.os@;
        proof {
            lemma_reaches_both(s1, oa, 1, b.seg@, b.os@, 1);
            lemma_strip_both(s1, b.seg@);
            lemma_pushes_both(strip(s1), oa, strip(b.seg@), b.os@);
            assert(os =~= seq![oa[0], b.os@[0]]);
            lemma_strip_ok(s1);
            lemma_height_both(s1, b.seg@);
            lemma_level_both(s1, b.seg@);
            lemma_peak(b.seg@);
        }
        let mut shapes: Vec<Shape> = Vec::new();
        shapes.push(a.shape);
        shapes.push(b.shape);
        let shape: Shape = diff_shape(&shapes);
        let plan: Plan = to_plan(Op::Diff, &shape);
        let ghost p = plan;
        let ghost body = steps@;
        steps.push(Step::Combine(2, plan));
        let len: usize = steps.len();
        proof {
            lemma_diff_analyzed(p, os[0], os[1], shapes@, shape@);
            lemma_built(body, os, 1, p, shape@, 2);
            let sets = opd_sets(os);
            assert(sets[0] == sa && sets[1] == sb);
            assert(op_set(Op::Diff, sets) =~= sa.difference(sb)) by {
                assert forall|v: u32|
                    op_set(Op::Diff, sets).contains(v) == sa.difference(sb).contains(v) by {
                    if sa.contains(v) && !sb.contains(v) {
                        assert forall|i: int| 1 <= i < sets.len() implies !(#[trigger] sets[i]).contains(v) by {}
                    }
                    if op_set(Op::Diff, sets).contains(v) {
                        assert(!sets[1].contains(v));
                    }
                }
            }
        }
        patch_guards(&mut steps);
        let max_depth: usize = if a.depth > 1 + b.depth {
            a.depth
        } else {
            1 + b.depth
        };
        FoldPlan { steps, shape, max_depth, narrows: false, opds: Ghost(os) }
    }
}

/// The expressions, last first.
fn reversed<'a>(children: Vec<BitmapExpr<'a>>) -> (r: Vec<BitmapExpr<'a>>)
    ensures
        r.len() == children.len(),
        forall|k: int| 0 <= k < r.len() ==> #[trigger] r@[k] == children@[children.len() - 1 - k],
{
    let ghost all = children@;
    let n: usize = children.len();
    let mut rest: Vec<BitmapExpr<'a>> = children;
    let mut out: Vec<BitmapExpr<'a>> = Vec::new();
    let mut i: usize = 0;
    while i < n
        invariant
            i <= n == all.len(),
            rest@ == all.take(n - i),
            out.len() == i,
            forall|k: int| 0 <= k < i ==> #[trigger] out@[k] == all[n - 1 - k],
        decreases n - i,
    {
        match rest.pop() {
            None => {
                assert(false);
            },
            Some(c) => {
                out.push(c);
            },
        }
        i = i + 1;
        assert(rest@ =~= all.take(n - i));
    }
    out
}

impl<'a> BitmapExpr<'a> {
    /// A leaf borrowing a view.
    pub fn leaf(view: FrozenBitmapView<'a>) -> (r: Self)
        ensures
            r.set() == view@,
            r.stored() == Some(view.src()),
            r.depth() == 0,
            forall|o: Op| #[trigger] r.fan(o) == 1,
    {
        BitmapExpr { node: Node::Leaf(view) }
    }

    /// A shared owned leaf.
    pub fn owned(bm: Arc<FrozenBitmap>) -> (r: Self)
        ensures
            r.set() == (*bm).set(),
            r.stored() == Some((*bm).src()),
            r.depth() == 0,
            forall|o: Op| #[trigger] r.fan(o) == 1,
    {
        BitmapExpr { node: Node::Owned(bm) }
    }

    /// Intersection (AND) of the children, nested ANDs being flattened into one N-way op.
    /// Of no children it is the empty set, of one that child.
    pub fn and(children: Vec<BitmapExpr<'a>>) -> (r: Self)
        ensures
            r.set() == op_set(Op::Intersect, expr_sets(children@)),
            r.stored() is None,
            stacked(Op::Intersect, children@, r),
    {
        BitmapExpr { node: Node::Combined(FoldPlan::combine(Op::Intersect, children)) }
    }

    /// Union (OR) of the children, nested ORs being flattened into one N-way op. Of no
    /// children it is the empty set, of one that child.
    pub fn or(children: Vec<BitmapExpr<'a>>) -> (r: Self)
        ensures
            r.set() == op_set(Op::Union, expr_sets(children@)),
            r.stored() is None,
            stacked(Op::Union, children@, r),
    {
        BitmapExpr { node: Node::Combined(FoldPlan::combine(Op::Union, children)) }
    }

    /// Difference: `lhs` minus `rhs`. Never flattened.
    pub fn difference(lhs: BitmapExpr<'a>, rhs: BitmapExpr<'a>) -> (r: Self)
        ensures
            r.set() == lhs.set().difference(rhs.set()),
            r.stored() is None,
            r.depth() == (if lhs.span() > 1 + rhs.span() {
                lhs.span()
            } else {
                1 + rhs.span()
            }),
            forall|o: Op| #[trigger] r.fan(o) == 1,
    {
        BitmapExpr { node: Node::Combined(FoldPlan::diff(lhs, rhs)) }
    }
}

// --- evaluation -----------------------------------------------------------------------

impl<'a> FoldPlan<'a> {
    /// The mask over the keys that can survive to the root.
    fn live_keys(&self) -> (r: KeyMask)
        requires
            shape_ok(self.shape@),
        ensures
            forall|key: u16| #[trigger] r@.contains(key) <==> spans(self.shape@, key),
    {
        let mut m: KeyMask = KeyMask::empty();
        let mut i: usize = 0;
        while i < self.shape.len()
            invariant
                i <= self.shape.len(),
                forall|key: u16| #[trigger]
                    m@.contains(key) <==> exists|k: int| k < i && #[trigger] meta_at(self.shape@, k, key),
            decreases self.shape.len() - i,
        {
            let key: u16 = self.shape[i].key;
            let ghost before = m@;
            m.set(key);
            proof {
                assert(meta_at(self.shape@, i as int, key));
                assert forall|k: u16| #[trigger] m@.contains(k) <==> exists|q: int|
                    q < i + 1 && #[trigger] meta_at(self.shape@, q, k) by {
                    if before.contains(k) {
                        let q = choose|q: int| q < i && #[trigger] meta_at(self.shape@, q, k);
                        assert(meta_at(self.shape@, q, k));
                    }
                    if exists|q: int| q < i + 1 && #[trigger] meta_at(self.shape@, q, k) {
                        let q = choose|q: int| q < i + 1 && #[trigger] meta_at(self.shape@, q, k);
                        if q < i {
                            assert(meta_at(self.shape@, q, k));
                        }
                    }
                }
            }
            i = i + 1;
        }
        assert forall|key: u16| #[trigger] m@.contains(key) <==> spans(self.shape@, key) by {
            if spans(self.shape@, key) {
                let k = choose|k: int| #[trigger] meta_at(self.shape@, k, key);
                assert(meta_at(self.shape@, k, key));
            }
        }
        m
    }

    /// Run the manifest; the result is encoded for storage. `None` where the budget refuses a
    /// buffer.
    fn execute(&self, p: &mut Buffers) -> (r: Option<FrozenBitmap>)
        requires
            self.wf(),
            old(p).wf(),
            old(p).arenas().out() + self.max_depth < usize::MAX,
            old(p).results().out() < usize::MAX,
        ensures
            r matches Some(b) ==> b.set() == self.set() && finished_standard(b.src(), self.set()),
            evaluated(*old(p), *final(p), self.max_depth as int, r),
            (account(*final(p)), r is Some) == self.bill(account(*old(p)), old(p).limits()),
    {
        let mask: Option<KeyMask> = if self.narrows {
            Some(self.live_keys())
        } else {
            None
        };
        let mask: Option<&KeyMask> = match &mask {
            Some(m) => Some(m),
            None => None,
        };
        let ghost m = live(mask);
        let ghost o = self.opd();
        let ghost none = Seq::<Step<'a>>::empty();
        let ghost start = Seq::<Val>::empty();
        let ghost vs = choose|vs: Seq<Val>| #[trigger]
            vals_ok(vs, seq![o], m) && run(self.steps@ + none, start, m) == run(none, start + vs, m);
        proof {
            assert(pushes_on(self.steps@, seq![o], none, start, m));
            assert(self.steps@ + none =~= self.steps@);
            assert(start + vs =~= vs);
            assert(val_ok(vs[0], seq![o][0], m));
            self.lemma_live(m);
            assert(m =~= self.mask());
        }
        match execute(&self.steps, self.max_depth, mask, p, Ghost(vs)) {
            None => None,
            Some(acc) => {
                let out: AlignedBuf = result_buf(p);
                assert(taken(old(p).results(), p.results(), out));
                match acc {
                    Acc::Arena(a) => {
                        let r: FrozenBitmap = encode_smallest(&a, out);
                        proof {
                            reveal_with_fuel(credited, 2);
                        }
                        give_buf(p, a.into_buf());
                        Some(r)
                    },
                    _ => Some(FrozenBitmapBuilder::new().finish_standard_in(out)),
                }
            },
        }
    }

    /// Every key of the result is in the shape, so a mask over the shape keeps it all.
    proof fn lemma_live(self, m: Set<u16>)
        requires
            bounds(self.shape@, self.set()),
            forall|key: u16| #[trigger] spans(self.shape@, key) ==> m.contains(key),
        ensures
            masked(self.set(), m) == self.set(),
    {
        let s = self.set();
        assert forall|v: u32| masked(s, m).contains(v) == s.contains(v) by {
            if s.contains(v) {
                lemma_under_some(s, hi(v));
                assert(under(s, hi(v)).len() > 0);
                assert(spans(self.shape@, hi(v)));
            }
        }
        assert(masked(s, m) =~= s);
    }
}

/// An owned copy of a view in the memory of `buf`: its bytes, or, should they be more than
/// an allocation can hold, its values encoded anew.
fn copy_view(v: &FrozenBitmapView, buf: AlignedBuf) -> (r: FrozenBitmap)
    ensures
        r.set() == v@,
        v.src().len() <= isize::MAX ==> r.src() == v.src(),
        r.room() >= buf_room(buf),
{
    let bytes: &[u8] = v.as_bytes();
    if bytes.len() <= isize::MAX as usize {
        return FrozenBitmap::from_bytes_in(bytes, buf);
    }
    let values: Vec<u32> = v.values();
    let mut b: FrozenBitmapBuilder = FrozenBitmapBuilder::new();
    b.extend_sorted(values.as_slice());
    b.finish_in(buf)
}

/// What evaluating a tree `depth` operands deep does to the pools. Working memory is back
/// when it is done, and the result is in a result buffer. Only a budget that asks to refuse
/// refuses, and none that has a buffer for every operand and one for the fold.
pub open spec fn evaluated(
    before: Buffers,
    after: Buffers,
    depth: int,
    r: Option<FrozenBitmap>,
) -> bool {
    &&& in_budget(before, after)
    &&& match r {
        Some(b) => after.arenas().out() == before.arenas().out() && stored_in(before, after, b),
        None => before.limits().on_overflow == OnOverflow::Fail && after.arenas().out()
            == before.arenas().out() + 1 && after.results() == before.results(),
    }
    &&& before.arenas().out() + depth + 1 <= before.limits().buffers ==> r is Some && after.over()
        == before.over()
}

impl<'a> BitmapExpr<'a> {
    /// The most operands that are on the stack at once while the tree is evaluated. A budget
    /// of one buffer more is never exceeded.
    pub fn max_depth(&self) -> (r: usize)
        ensures
            r == self.depth(),
            r < usize::MAX,
    {
        proof {
            use_type_invariant(self);
        }
        match &self.node {
            Node::Combined(p) => p.max_depth,
            _ => 0,
        }
    }

    /// Evaluate the tree into one [`FrozenBitmap`]. A leaf is copied as it is stored, unless
    /// that is more than an allocation holds.
    pub fn materialize(&self) -> (r: FrozenBitmap)
        ensures
            r.set() == self.set(),
            self.stored() matches Some(b) ==> b.len() <= isize::MAX ==> r.src() == b,
            self.stored() is None ==> finished_standard(r.src(), self.set()),
    {
        proof {
            use_type_invariant(self);
        }
        let mut p: Buffers = Buffers::new();
        match self.materialize_in(&mut p) {
            Some(r) => r,
            None => FrozenBitmap::empty(),
        }
    }

    /// Like [`materialize`](Self::materialize), in memory from `p`. `None` where the budget
    /// refuses a buffer.
    pub fn materialize_in(&self, p: &mut Buffers) -> (r: Option<FrozenBitmap>)
        requires
            old(p).wf(),
            old(p).arenas().out() + self.depth() < usize::MAX,
            old(p).results().out() < usize::MAX,
        ensures
            r matches Some(b) ==> {
                &&& b.set() == self.set()
                &&& self.stored() matches Some(s) ==> s.len() <= isize::MAX ==> b.src() == s
                &&& self.stored() is None ==> finished_standard(b.src(), self.set())
            },
            self.stored() is Some ==> r is Some && final(p).over() == old(p).over(),
            evaluated(*old(p), *final(p), self.depth() as int, r),
            (account(*final(p)), r is Some) == self.bill(account(*old(p)), old(p).limits()),
    {
        proof {
            use_type_invariant(self);
        }
        match &self.node {
            Node::Leaf(v) => {
                let buf: AlignedBuf = result_buf(p);
                assert(taken(old(p).results(), p.results(), buf));
                Some(copy_view(v, buf))
            },
            Node::Owned(bm) => {
                let buf: AlignedBuf = result_buf(p);
                assert(taken(old(p).results(), p.results(), buf));
                Some(FrozenBitmap::from_bytes_in(bm.as_bytes(), buf))
            },
            Node::Combined(plan) => plan.execute(p),
        }
    }
}

// --- copies and conversions -------------------------------------------------------------

impl<'a> FoldPlan<'a> {
    /// The same manifest.
    fn copy(&self) -> (r: Self)
        requires
            self.wf(),
        ensures
            r.wf(),
            r.set() == self.set(),
            r.op() == self.op(),
            r.max_depth == self.max_depth,
            r.opds@ == self.opds@,
            forall|c: Account, l: Limits| #[trigger] r.bill(c, l) == self.bill(c, l),
    {
        let mut shape: Shape = Vec::with_capacity(self.shape.len());
        let mut i: usize = 0;
        while i < self.shape.len()
            invariant
                i <= self.shape.len(),
                shape@ == self.shape@.take(i as int),
            decreases self.shape.len() - i,
        {
            shape.push(self.shape[i]);
            i = i + 1;
            assert(shape@ =~= self.shape@.take(i as int));
        }
        let steps: Vec<Step<'a>> = copy_steps(&self.steps);
        let r: FoldPlan<'a> = FoldPlan {
            steps,
            shape,
            max_depth: self.max_depth,
            narrows: self.narrows,
            opds: self.opds,
        };
        proof {
            let (a, b) = (self.steps@, r.steps@);
            let n = a.len() as int;
            assert(r.shape@ =~= self.shape@);
            assert(same_step(a[n - 1], b[n - 1]));
            assert(r.set() == self.set());
            assert(same_code(a.drop_last(), b.drop_last())) by {
                assert forall|i: int| 0 <= i < n - 1 implies same_step(
                    #[trigger] a.drop_last()[i],
                    b.drop_last()[i],
                ) by {
                    assert(same_step(a[i], b[i]));
                }
            }
            lemma_height_same(a, b);
            lemma_level_same(a, b);
            lemma_strip_same(a, b);
            lemma_strip_same(a.drop_last(), b.drop_last());
            lemma_pushes_same(a, b, seq![self.opd()]);
            lemma_pushes_same(strip(a), strip(b), seq![self.opd()]);
            lemma_pushes_same(self.body(), r.body(), self.opds@);
            assert forall|i: int| 0 <= i < n implies !open_guard(#[trigger] b[i]) by {
                assert(same_step(a[i], b[i]));
                assert(!open_guard(a[i]));
            }
            assert forall|c: Account, l: Limits| #[trigger] r.bill(c, l) == self.bill(c, l) by {
                lemma_spent_same(a, b, Seq::empty(), Seq::empty(), self.mask(), l, c);
            }
        }
        r
    }
}

impl<'a> Clone for BitmapExpr<'a> {
    fn clone(&self) -> (r: Self)
        ensures
            r.set() == self.set(),
            r.stored() == self.stored(),
            r.depth() == self.depth(),
            forall|o: Op| #[trigger] r.fan(o) == self.fan(o),
            forall|c: Account, l: Limits| #[trigger] r.bill(c, l) == self.bill(c, l),
    {
        proof {
            use_type_invariant(self);
        }
        match &self.node {
            Node::Leaf(v) => BitmapExpr { node: Node::Leaf(*v) },
            Node::Owned(b) => BitmapExpr { node: Node::Owned(share(b)) },
            Node::Combined(p) => BitmapExpr { node: Node::Combined(p.copy()) },
        }
    }
}

impl<'a> From<FrozenBitmapView<'a>> for BitmapExpr<'a> {
    fn from(v: FrozenBitmapView<'a>) -> (r: Self)
        ensures
            r.set() == v@,
            r.stored() == Some(v.src()),
            r.depth() == 0,
            forall|o: Op| #[trigger] r.fan(o) == 1,
    {
        BitmapExpr::leaf(v)
    }
}

impl<'a> vstd::std_specs::convert::FromSpecImpl<FrozenBitmapView<'a>> for BitmapExpr<'a> {
    open spec fn obeys_from_spec() -> bool {
        false
    }

    open spec fn from_spec(v: FrozenBitmapView<'a>) -> Self {
        arbitrary()
    }
}

impl<'a> From<Arc<FrozenBitmap>> for BitmapExpr<'a> {
    fn from(b: Arc<FrozenBitmap>) -> (r: Self)
        ensures
            r.set() == (*b).set(),
            r.stored() == Some((*b).src()),
            r.depth() == 0,
            forall|o: Op| #[trigger] r.fan(o) == 1,
    {
        BitmapExpr::owned(b)
    }
}

impl<'a> vstd::std_specs::convert::FromSpecImpl<Arc<FrozenBitmap>> for BitmapExpr<'a> {
    open spec fn obeys_from_spec() -> bool {
        false
    }

    open spec fn from_spec(b: Arc<FrozenBitmap>) -> Self {
        arbitrary()
    }
}

impl<'a> From<FrozenBitmap> for BitmapExpr<'a> {
    /// Place an owned bitmap in a tree by value.
    fn from(bm: FrozenBitmap) -> (r: Self)
        ensures
            r.set() == bm.set(),
            r.stored() == Some(bm.src()),
            r.depth() == 0,
            forall|o: Op| #[trigger] r.fan(o) == 1,
    {
        BitmapExpr::owned(Arc::new(bm))
    }
}

impl<'a> vstd::std_specs::convert::FromSpecImpl<FrozenBitmap> for BitmapExpr<'a> {
    open spec fn obeys_from_spec() -> bool {
        false
    }

    open spec fn from_spec(bm: FrozenBitmap) -> Self {
        arbitrary()
    }
}

/// How deep the stack of an op over `es` gets. It holds each operand while that is evaluated,
/// and those before it. Over leaves it is one for each. An operand that comes last is evaluated
/// on top of the others, one that comes first before any of them.
pub proof fn law_stacked<'a>(op: Op, es: Seq<BitmapExpr<'a>>, r: BitmapExpr<'a>)
    requires
        stacked(op, es, r),
        es.len() > 0,
    ensures
        forall|j: int| 0 <= j < es.len() ==> (#[trigger] es[j]).span() <= r.depth(),
        leaves_but(op, es, es.len() as int) ==> r.depth() == es.len() && r.fan(op) == es.len(),
        leaves_but(op, es, es.len() - 1) ==> r.depth() == es.len() - 1 + es.last().span(),
        leaves_but(op, es, 0) && es[0].fan(op) == 1 ==> r.depth() == (if es[0].span()
            > es.len() {
            es[0].span()
        } else {
            es.len() as int
        }),
{
    let n = es.len() as int;
    lemma_depths(op, es, n);
    if leaves_but(op, es, n) {
        lemma_leaf_depths(op, es, n, n);
    }
    if leaves_but(op, es, n - 1) {
        lemma_leaf_depths(op, es, n - 1, n - 1);
    }
    if leaves_but(op, es, 0) && es[0].fan(op) == 1 {
        lemma_leaf_depths(op, es, 0, n);
    }
}

/// All of `es` but number `but` are leaves.
pub open spec fn leaves_but<'a>(op: Op, es: Seq<BitmapExpr<'a>>, but: int) -> bool {
    forall|j: int|
        0 <= j < es.len() && j != but ==> (#[trigger] es[j]).depth() == 0 && es[j].fan(op) == 1
}

proof fn lemma_depths<'a>(op: Op, es: Seq<BitmapExpr<'a>>, n: int)
    requires
        0 <= n <= es.len(),
    ensures
        fans(op, es, n) >= n,
        forall|j: int| 0 <= j < n ==> (#[trigger] es[j]).span() <= depths(op, es, n),
    decreases n,
{
    if n > 0 {
        lemma_depths(op, es, n - 1);
    }
}

proof fn lemma_leaf_depths<'a>(op: Op, es: Seq<BitmapExpr<'a>>, but: int, n: int)
    requires
        0 <= n <= es.len(),
        leaves_but(op, es, but),
        but >= n || but == 0 && es[0].fan(op) == 1,
    ensures
        fans(op, es, n) == n,
        but >= n ==> depths(op, es, n) == n,
        but == 0 && n > 0 ==> depths(op, es, n) == (if es[0].span() > n {
            es[0].span()
        } else {
            n
        }),
    decreases n,
{
    if n > 0 {
        lemma_leaf_depths(op, es, but, n - 1);
        if n - 1 != but {
            assert(es[n - 1].depth() == 0);
        }
    }
}

} // verus!
