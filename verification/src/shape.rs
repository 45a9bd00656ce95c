//! Bottom-up output-shape analysis for tree evaluation.
//!
//! A node's shape is the metadata of the containers it would produce: per key, a slot
//! ceiling and a bound on the container's cardinality, runs and type. Leaf shapes are
//! exact; combined shapes follow from the children's by the type decisions that the
//! kernels make, so every ceiling is sufficient. Each op's arena is thus sized up front,
//! and the executor does no sizing.
use vstd::prelude::*;

use crate::cursor::{
    frozen_form, frozen_stored, stored_form, ContainerCursor, ContainerRef,
};
use crate::decide::{
    diff_choice, diff_key_shape, intersect_key, shrink_cap_spec, union_cap, union_form, union_key,
    Choice, DiffLhs, Fanin, UnionKey,
};
use crate::format::{ARRAY_MAX_SIZE, BITMAP_BYTES, CT_ARRAY, CT_BITMAP, CT_RUN, MAX_RUNS};
use crate::model::{lemma_onward, lemma_onward_none, onward, under};
use crate::plan::{no_stats, wants_partner_major, Op, Plan, SlotPlan, SCRATCH_BYTES};
use crate::view::FrozenBitmapView;
use crate::walk::lemma_first;

verus! {

/// One output container's analysis: arena slot ceiling and parent-facing bound.
#[derive(Debug, Clone, Copy, PartialEq, Eq, Structural)]
pub struct Meta {
    pub key: u16,
    /// Slot bytes that suffice.
    pub cap: u32,
    /// At most this many values.
    pub card: u32,
    /// At most this many runs, for a run container.
    pub runs: u16,
    pub typ: u8,
}

/// A node's output shape: container metadata, ascending by key.
pub type Shape = Vec<Meta>;

/// Keys ascend, no ceiling exceeds a bitmap, and an array's bound is an array's.
pub open spec fn shape_ok(s: Seq<Meta>) -> bool {
    &&& forall|i: int, j: int| 0 <= i < j < s.len() ==> (#[trigger] s[i]).key < (#[trigger] s[j]).key
    &&& forall|i: int| 0 <= i < s.len() ==> meta_ok(#[trigger] s[i])
}

pub open spec fn meta_ok(m: Meta) -> bool {
    &&& m.cap <= BITMAP_BYTES
    &&& m.runs <= MAX_RUNS
    &&& m.typ == CT_ARRAY ==> m.card <= ARRAY_MAX_SIZE
}

/// Entry `i` of the shape is the one of `key`.
pub open spec fn meta_at(s: Seq<Meta>, i: int, key: u16) -> bool {
    0 <= i < s.len() && s[i].key == key
}

/// The shape has an entry for `key`.
pub open spec fn spans(s: Seq<Meta>, key: u16) -> bool {
    exists|i: int| #[trigger] meta_at(s, i, key)
}

/// The entry of `key`.
pub open spec fn meta_of(s: Seq<Meta>, key: u16) -> Meta {
    s[choose|i: int| #[trigger] meta_at(s, i, key)]
}

/// There is one entry for a key.
pub proof fn lemma_meta_of(s: Seq<Meta>, i: int, key: u16)
    requires
        shape_ok(s),
        meta_at(s, i, key),
    ensures
        spans(s, key),
        meta_of(s, key) == s[i],
{
    let k = choose|k: int| #[trigger] meta_at(s, k, key);
    if k < i {
        assert(s[k].key < s[i].key);
    } else if i < k {
        assert(s[i].key < s[k].key);
    }
}

/// The shape has an entry wherever `t` has values, and bounds their number.
pub open spec fn bounds(s: Seq<Meta>, t: Set<u32>) -> bool {
    forall|key: u16| #[trigger]
        under(t, key).len() > 0 ==> spans(s, key) && under(t, key).len() <= meta_of(s, key).card
}

/// The entry of a leaf's container under `key`.
pub open spec fn leaf_meta(b: Seq<u8>, key: u16, card: int) -> Meta {
    let (typ, stored) = (frozen_form(b, key), frozen_stored(b, key));
    Meta {
        key,
        cap: stored as u32,
        card: card as u32,
        runs: if typ == CT_RUN {
            ((stored - 2) / 4) as u16
        } else {
            0
        },
        typ: stored_form(typ, card),
    }
}

/// Exact shape of a leaf, read from its containers; a key group counts as an array, and an
/// array or group outgrown by a bitmap as one.
#[verifier::rlimit(40)]
pub fn view_shape(view: &FrozenBitmapView) -> (r: Shape)
    ensures
        shape_ok(r@),
        forall|key: u16| #[trigger] spans(r@, key) <==> under(view@, key).len() > 0,
        forall|key: u16| #[trigger]
            spans(r@, key) ==> meta_of(r@, key).card == under(view@, key).len() && meta_of(
                r@,
                key,
            ).cap == frozen_stored(view.src(), key) && meta_of(r@, key) == leaf_meta(
                view.src(),
                key,
                under(view@, key).len() as int,
            ),
        bounds(r@, view@),
{
    let mut c: ContainerCursor = ContainerCursor::new(view);
    let ghost c0 = c;
    let mut out: Vec<Meta> = Vec::new();
    let ghost mut at: int = 0;
    proof {
        assert(onward(view@, 0) =~= view@);
        c0.lemma_self();
    }
    loop
        invariant
            c.wf(),
            c.same_source(c0),
            c.rest() == onward(view@, at),
            forall|key: u16| #[trigger] c0.stored(key) == frozen_stored(view.src(), key),
            forall|key: u16| #[trigger] c0.form(key) == frozen_form(view.src(), key),
            shape_ok(out@),
            forall|i: int|
                0 <= i < out.len() ==> (#[trigger] out@[i]).key < at && under(
                    view@,
                    out@[i].key,
                ).len() > 0 && out@[i].card == under(view@, out@[i].key).len() && out@[i].cap
                    == frozen_stored(view.src(), out@[i].key) && out@[i] == leaf_meta(
                    view.src(),
                    out@[i].key,
                    under(view@, out@[i].key).len() as int,
                ),
            forall|key: u16| #[trigger] under(view@, key).len() > 0 && key < at ==> spans(out@, key),
        ensures
            forall|k: u16| at <= k ==> #[trigger] under(view@, k).len() == 0,
        decreases c.left(),
    {
        match c.peek_key() {
            None => {
                proof {
                    lemma_onward_none(view@, at);
                }
                break;
            },
            Some(key) => {
                proof {
                    lemma_onward(view@, at, key);
                    c.lemma_same_source(c0);
                }
                let r: ContainerRef = c.get();
                proof {
                    lemma_first(c.rest(), key, r.key);
                    assert(r.stored() == c0.stored(key));
                    assert(r.typ == c0.form(key));
                    r.lemma_stored();
                }
                let typ: u8 = if r.typ == CT_RUN {
                    CT_RUN
                } else if r.typ == CT_BITMAP || r.card as usize > ARRAY_MAX_SIZE {
                    CT_BITMAP
                } else {
                    CT_ARRAY
                };
                let m: Meta = Meta {
                    key,
                    cap: r.stored_bytes() as u32,
                    card: r.card,
                    runs: r.num_runs() as u16,
                    typ,
                };
                let ghost before = out@;
                let ghost c1 = c;
                out.push(m);
                c.advance();
                proof {
                    c.lemma_chain(c1, c0);
                    assert forall|k: u16| #[trigger] under(view@, k).len() > 0 && k < key + 1 implies spans(
                        out@,
                        k,
                    ) by {
                        if k < at {
                            let i = choose|i: int| #[trigger] meta_at(before, i, k);
                            assert(meta_at(out@, i, k));
                        } else {
                            assert(meta_at(out@, before.len() as int, k));
                        }
                    }
                    at = key + 1;
                }
            },
        }
    }
    proof {
        assert forall|key: u16| #[trigger] spans(out@, key) implies under(view@, key).len() > 0
            && meta_of(out@, key).card == under(view@, key).len() && meta_of(out@, key).cap
            == frozen_stored(view.src(), key) && meta_of(out@, key) == leaf_meta(
            view.src(),
            key,
            under(view@, key).len() as int,
        ) by {
            let i = choose|i: int| #[trigger] meta_at(out@, i, key);
            lemma_meta_of(out@, i, key);
        }
        assert forall|key: u16| #[trigger] under(view@, key).len() > 0 implies spans(out@, key) by {
            assert(key < at);
        }
    }
    out
}

/// The slots of a plan are a shape's keys and ceilings.
pub open spec fn plan_of(slots: Seq<SlotPlan>, s: Seq<Meta>) -> bool {
    slots.len() == s.len() && forall|i: int|
        0 <= i < s.len() ==> #[trigger] slots[i] == (SlotPlan { key: s[i].key, capacity: s[i].cap })
}

/// The arena plan of an output shape.
pub fn to_plan(op: Op, shape: &Shape) -> (r: Plan)
    requires
        shape_ok(shape@),
    ensures
        r.wf(),
        r.op == op,
        plan_of(r.slots@, shape@),
        r.scratch_bytes == 16384,
        r.double == (op != Op::Intersect && crate::plan::slots_bytes(r.slots@)
            <= 65536),
{
    let mut slots: Vec<SlotPlan> = Vec::with_capacity(shape.len());
    let mut i: usize = 0;
    while i < shape.len()
        invariant
            i <= shape.len(),
            slots.len() == i,
            forall|k: int|
                0 <= k < i ==> #[trigger] slots@[k] == (SlotPlan {
                    key: shape@[k].key,
                    capacity: shape@[k].cap,
                }),
        decreases shape.len() - i,
    {
        slots.push(SlotPlan { key: shape[i].key, capacity: shape[i].cap });
        i = i + 1;
    }
    proof {
        assert forall|i: int, j: int| 0 <= i < j < slots@.len() implies (#[trigger] slots@[i]).key < (
        #[trigger] slots@[j]).key by {
            assert(shape@[i].key < shape@[j].key);
        }
        assert forall|i: int| 0 <= i < slots@.len() implies (#[trigger] slots@[i]).capacity
            <= BITMAP_BYTES by {
            assert(meta_ok(shape@[i]));
        }
    }
    let double: bool = wants_partner_major(op, slots.as_slice());
    Plan { op, slots, scratch_bytes: SCRATCH_BYTES, double }
}

// --- merging shapes ------------------------------------------------------------------

/// A merge cursor over a shape.
struct Cur<'a> {
    s: &'a Shape,
    i: usize,
}

impl<'a> Cur<'a> {
    spec fn wf(self) -> bool {
        &&& shape_ok(self.s@)
        &&& self.i <= self.s@.len()
    }

    /// The entries of the keys before `at`, and only those, are taken.
    spec fn passed(self, at: int) -> bool {
        &&& self.wf()
        &&& forall|k: int| 0 <= k < self.i ==> (#[trigger] self.s@[k]).key < at
        &&& forall|k: int| self.i <= k < self.s@.len() ==> (#[trigger] self.s@[k]).key >= at
    }

    /// The next entry is that of `key`.
    spec fn at_key(self, key: u16) -> bool {
        self.i < self.s@.len() && self.s@[self.i as int].key == key
    }

    fn new(s: &'a Shape) -> (r: Self)
        requires
            shape_ok(s@),
        ensures
            r.s == s,
            r.passed(0),
    {
        Cur { s, i: 0 }
    }

    /// Key of the next entry.
    fn key(&self) -> (r: Option<u16>)
        requires
            self.i <= self.s@.len(),
        ensures
            r is None <==> self.i == self.s@.len(),
            r matches Some(k) ==> self.at_key(k),
    {
        if self.i < self.s.len() {
            Some(self.s[self.i].key)
        } else {
            None
        }
    }

    /// Take the next entry.
    fn take(&mut self) -> (r: Meta)
        requires
            old(self).i < old(self).s@.len(),
        ensures
            final(self).s == old(self).s,
            final(self).i == old(self).i + 1,
            r == old(self).s@[old(self).i as int],
    {
        let n: usize = self.s.len();
        let m: Meta = self.s[self.i];
        self.i = self.i + 1;
        m
    }

    /// With the smallest key taken where it was next, the keys up to it are passed.
    proof fn lemma_took(self, other: Cur<'a>, at: int, key: u16)
        requires
            self.passed(at),
            at <= key,
            forall|k: int| self.i <= k < self.s@.len() ==> (#[trigger] self.s@[k]).key >= key,
            other.s == self.s,
            other.i == (if self.at_key(key) {
                self.i + 1
            } else {
                self.i as int
            }),
        ensures
            other.passed(key + 1),
            self.at_key(key) <==> spans(self.s@, key),
            self.at_key(key) ==> meta_of(self.s@, key) == self.s@[self.i as int],
    {
        if self.at_key(key) {
            assert(meta_at(self.s@, self.i as int, key));
            lemma_meta_of(self.s@, self.i as int, key);
            assert forall|k: int| other.i <= k < other.s@.len() implies (#[trigger] other.s@[k]).key
                >= key + 1 by {
                assert(self.s@[self.i as int].key < self.s@[k].key);
            }
        } else {
            if spans(self.s@, key) {
                let k = choose|k: int| #[trigger] meta_at(self.s@, k, key);
                if k < self.i {
                    assert(self.s@[k].key < at);
                } else {
                    assert(self.s@[self.i as int].key <= self.s@[k].key);
                    if self.i < k {
                        assert(self.s@[self.i as int].key < self.s@[k].key);
                    }
                }
            }
            assert forall|k: int| other.i <= k < other.s@.len() implies (#[trigger] other.s@[k]).key
                >= key + 1 by {
                if k > self.i {
                    assert(self.s@[self.i as int].key < self.s@[k].key);
                }
            }
        }
    }
}

/// Every cursor has passed the keys before `at`, in its input.
spec fn all_passed(inputs: Seq<Shape>, curs: Seq<Cur>, at: int) -> bool {
    &&& curs.len() == inputs.len()
    &&& forall|j: int|
        0 <= j < curs.len() ==> (#[trigger] curs[j]).passed(at) && *curs[j].s == inputs[j]
}

/// Open a cursor on every shape.
fn open<'a>(inputs: &'a Vec<Shape>) -> (r: Vec<Cur<'a>>)
    requires
        forall|j: int| 0 <= j < inputs.len() ==> shape_ok((#[trigger] inputs@[j])@),
    ensures
        all_passed(inputs@, r@, 0),
{
    let mut v: Vec<Cur<'a>> = Vec::new();
    let mut j: usize = 0;
    while j < inputs.len()
        invariant
            forall|j: int| 0 <= j < inputs.len() ==> shape_ok((#[trigger] inputs@[j])@),
            j <= inputs.len(),
            v.len() == j,
            forall|k: int| 0 <= k < j ==> (#[trigger] v@[k]).passed(0) && *v@[k].s == inputs@[k],
        decreases inputs.len() - j,
    {
        assert(shape_ok(inputs@[j as int]@));
        v.push(Cur::new(&inputs[j]));
        j = j + 1;
    }
    v
}

/// Smallest next key, or `None` when all are exhausted.
fn min_key(curs: &Vec<Cur>) -> (r: Option<u16>)
    requires
        forall|j: int| 0 <= j < curs.len() ==> (#[trigger] curs@[j]).wf(),
    ensures
        match r {
            None => forall|j: int| 0 <= j < curs.len() ==> (#[trigger] curs@[j]).i == curs@[j].s@.len(),
            Some(key) => {
                &&& exists|j: int| 0 <= j < curs.len() && (#[trigger] curs@[j]).at_key(key)
                &&& forall|j: int, k: int|
                    0 <= j < curs.len() && curs@[j].i <= k < curs@[j].s@.len()
                        ==> #[trigger] curs@[j].s@[k].key >= key
            },
        },
{
    let mut best: Option<u16> = None;
    let mut j: usize = 0;
    while j < curs.len()
        invariant
            forall|j: int| 0 <= j < curs.len() ==> (#[trigger] curs@[j]).wf(),
            j <= curs.len(),
            match best {
                None => forall|k: int| 0 <= k < j ==> (#[trigger] curs@[k]).i == curs@[k].s@.len(),
                Some(key) => {
                    &&& exists|k: int| 0 <= k < j && (#[trigger] curs@[k]).at_key(key)
                    &&& forall|q: int, k: int|
                        0 <= q < j && curs@[q].i <= k < curs@[q].s@.len()
                            ==> #[trigger] curs@[q].s@[k].key >= key
                },
            },
        decreases curs.len() - j,
    {
        let ghost c = curs@[j as int];
        assert(c.wf());
        match curs[j].key() {
            None => {},
            Some(k) => {
                assert forall|m: int| c.i <= m < c.s@.len() implies (#[trigger] c.s@[m]).key >= k by {
                    if c.i < m {
                        assert(c.s@[c.i as int].key < c.s@[m].key);
                    }
                }
                let smaller: bool = match best {
                    None => true,
                    Some(b) => k < b,
                };
                if smaller {
                    best = Some(k);
                    assert(curs@[j as int].at_key(k));
                }
            },
        }
        j = j + 1;
    }
    best
}

/// Every shape spans `key`, and there is one.
pub open spec fn all_span(inputs: Seq<Shape>, key: u16) -> bool {
    inputs.len() > 0 && forall|j: int| 0 <= j < inputs.len() ==> spans((#[trigger] inputs[j])@, key)
}

/// `c` is the smallest bound the shapes give for `key`.
pub open spec fn least_meta(inputs: Seq<Shape>, key: u16, c: int) -> bool {
    &&& exists|j: int| 0 <= j < inputs.len() && c == meta_of((#[trigger] inputs[j])@, key).card
    &&& forall|j: int| 0 <= j < inputs.len() ==> c <= meta_of((#[trigger] inputs[j])@, key).card
}

/// Sum of the runs that the first `n` shapes give for `key`.
pub open spec fn runs_sum(inputs: Seq<Shape>, n: int, key: u16) -> int
    decreases n,
{
    if n <= 0 {
        0
    } else {
        runs_sum(inputs, n - 1, key) + if spans(inputs[n - 1]@, key) {
            meta_of(inputs[n - 1]@, key).runs as int
        } else {
            0
        }
    }
}

proof fn lemma_runs_sum(inputs: Seq<Shape>, n: int, key: u16)
    requires
        n >= 0,
    ensures
        runs_sum(inputs, n, key) >= 0,
        runs_sum(inputs, n + 1, key) == runs_sum(inputs, n, key) + if spans(inputs[n]@, key) {
            meta_of(inputs[n]@, key).runs as int
        } else {
            0
        },
    decreases n,
{
    if n > 0 {
        lemma_runs_sum(inputs, n - 1, key);
    }
}

/// Every shape that spans `key` has runs there.
pub open spec fn runs_only(inputs: Seq<Shape>, n: int, key: u16) -> bool {
    forall|j: int|
        0 <= j < n && spans((#[trigger] inputs[j])@, key) ==> meta_of(inputs[j]@, key).typ == CT_RUN
}

/// Form and runs of an AND entry bounded by `card` values.
pub open spec fn and_kind(m: Meta, inputs: Seq<Shape>, key: u16) -> bool {
    let n = inputs.len() as int;
    if m.card > ARRAY_MAX_SIZE && runs_only(inputs, n, key) && runs_sum(inputs, n, key) <= MAX_RUNS {
        m.typ == CT_RUN && m.runs == runs_sum(inputs, n, key)
    } else {
        m.runs == 0 && m.typ == (if m.card <= ARRAY_MAX_SIZE {
            CT_ARRAY
        } else {
            CT_BITMAP
        })
    }
}

/// What is known of the entries pushed so far, all of keys before `at`.
spec fn shaped(s: Seq<Meta>, at: int) -> bool {
    shape_ok(s) && forall|i: int| 0 <= i < s.len() ==> (#[trigger] s[i]).key < at
}

proof fn lemma_shaped_push(s: Seq<Meta>, at: int, m: Meta)
    requires
        shaped(s, at),
        at <= m.key,
        meta_ok(m),
    ensures
        shaped(s.push(m), m.key + 1),
        forall|key: u16| #[trigger] spans(s.push(m), key) <==> spans(s, key) || key == m.key,
        forall|key: u16| #[trigger] spans(s, key) ==> meta_of(s.push(m), key) == meta_of(s, key),
        meta_of(s.push(m), m.key) == m,
{
    let t = s.push(m);
    assert(meta_at(t, s.len() as int, m.key));
    assert(shape_ok(t));
    lemma_meta_of(t, s.len() as int, m.key);
    assert forall|key: u16| #[trigger] spans(t, key) <==> spans(s, key) || key == m.key by {
        if spans(t, key) {
            let i = choose|i: int| #[trigger] meta_at(t, i, key);
            if i < s.len() {
                assert(meta_at(s, i, key));
            }
        }
        if spans(s, key) {
            let i = choose|i: int| #[trigger] meta_at(s, i, key);
            assert(meta_at(t, i, key));
        }
    }
    assert forall|key: u16| #[trigger] spans(s, key) implies meta_of(t, key) == meta_of(s, key) by {
        let i = choose|i: int| #[trigger] meta_at(s, i, key);
        assert(meta_at(t, i, key));
        lemma_meta_of(t, i, key);
        lemma_meta_of(s, i, key);
    }
}

/// AND: the keys in every input, each sized for what its smallest bound shrinks to.
#[verifier::rlimit(40)]
pub fn intersect_shape(inputs: &Vec<Shape>) -> (r: Shape)
    requires
        forall|j: int| 0 <= j < inputs.len() ==> shape_ok((#[trigger] inputs@[j])@),
    ensures
        shape_ok(r@),
        forall|key: u16| #[trigger] spans(r@, key) <==> all_span(inputs@, key),
        forall|key: u16| #[trigger]
            spans(r@, key) ==> least_meta(inputs@, key, meta_of(r@, key).card as int) && meta_of(
                r@,
                key,
            ).cap == shrink_cap_spec(meta_of(r@, key).card as int) && and_kind(
                meta_of(r@, key),
                inputs@,
                key,
            ),
{
    let n: usize = inputs.len();
    let mut curs: Vec<Cur> = open(inputs);
    let mut out: Vec<Meta> = Vec::new();
    let ghost mut at: int = 0;
    loop
        invariant
            n == inputs.len(),
            all_passed(inputs@, curs@, at),
            0 <= at <= 65536,
            shaped(out@, at),
            forall|key: u16| #[trigger] spans(out@, key) ==> key < at && all_span(inputs@, key)
                && least_meta(inputs@, key, meta_of(out@, key).card as int) && meta_of(
                out@,
                key,
            ).cap == shrink_cap_spec(meta_of(out@, key).card as int) && and_kind(
                meta_of(out@, key),
                inputs@,
                key,
            ),
            forall|key: u16| #[trigger] all_span(inputs@, key) && key < at ==> spans(out@, key),
        ensures
            forall|key: u16| #[trigger] all_span(inputs@, key) ==> key < at,
        decreases 65536 - at,
    {
        match min_key(&curs) {
            None => {
                proof {
                    assert forall|key: u16| #[trigger] all_span(inputs@, key) implies key < at by {
                        assert(spans(inputs@[0]@, key));
                        let k = choose|k: int| #[trigger] meta_at(inputs@[0]@, k, key);
                        assert(curs@[0].passed(at));
                        assert(curs@[0].s@[k].key < at);
                    }
                }
                break;
            },
            Some(key) => {
                let ghost before = curs@;
                proof {
                    let j = choose|j: int| 0 <= j < n && (#[trigger] before[j]).at_key(key);
                    assert(before[j].passed(at));
                    assert(before[j].s@[before[j].i as int].key >= at);
                    assert forall|k: u16| #[trigger] all_span(inputs@, k) && k < key implies k < at by {
                        assert(spans(inputs@[j]@, k));
                        let m = choose|m: int| #[trigger] meta_at(inputs@[j]@, m, k);
                        if m >= before[j].i {
                            assert(before[j].s@[m].key >= key);
                        }
                    }
                }
                let mut present: usize = 0;
                let mut min_card: u32 = u32::MAX;
                let mut all_run: bool = true;
                let mut runs: usize = 0;
                let mut j: usize = 0;
                while j < n
                    invariant
                        j <= n,
                        n == inputs.len(),
                        n == curs.len(),
                        all_passed(inputs@, before, at),
                        at <= key,
                        forall|q: int, k: int|
                            0 <= q < n && before[q].i <= k < before[q].s@.len()
                                ==> #[trigger] before[q].s@[k].key >= key,
                        forall|q: int| j <= q < n ==> #[trigger] curs@[q] == before[q],
                        forall|q: int|
                            0 <= q < j ==> (#[trigger] curs@[q]).passed(key + 1) && *curs@[q].s
                                == inputs@[q],
                        present <= j,
                        present == j <==> forall|q: int|
                            0 <= q < j ==> spans((#[trigger] inputs@[q])@, key),
                        forall|q: int|
                            0 <= q < j && spans((#[trigger] inputs@[q])@, key) ==> min_card <= meta_of(
                                inputs@[q]@,
                                key,
                            ).card,
                        present == 0 ==> min_card == u32::MAX,
                        all_run == runs_only(inputs@, j as int, key),
                        runs == wide(runs_sum(inputs@, j as int, key)),
                        present > 0 ==> exists|q: int|
                            0 <= q < j && spans((#[trigger] inputs@[q])@, key) && min_card == meta_of(
                                inputs@[q]@,
                                key,
                            ).card,
                    decreases n - j,
                {
                    let ghost c = before[j as int];
                    assert(c.passed(at) && *c.s == inputs@[j as int]);
                    assert(curs@[j as int] == c);
                    let hit: bool = match curs[j].key() {
                        Some(k) => k == key,
                        None => false,
                    };
                    assert forall|k: int| c.i <= k < c.s@.len() implies (#[trigger] c.s@[k]).key >= key by {
                        assert(before[j as int].s@[k].key >= key);
                    }
                    proof {
                        lemma_runs_sum(inputs@, j as int, key);
                    }
                    if hit {
                        let m: Meta = curs[j].take();
                        proof {
                            c.lemma_took(curs@[j as int], at, key);
                        }
                        present = present + 1;
                        if m.card < min_card {
                            min_card = m.card;
                        }
                        all_run = all_run && m.typ == CT_RUN;
                        runs = runs.saturating_add(m.runs as usize);
                        assert(spans(inputs@[j as int]@, key) && m == meta_of(inputs@[j as int]@, key));
                    } else {
                        proof {
                            c.lemma_took(c, at, key);
                        }
                        assert(!spans(inputs@[j as int]@, key));
                    }
                    j = j + 1;
                }
                if present == n {
                    let c: Choice = intersect_key(min_card, all_run, runs);
                    let m: Meta = Meta { key, cap: c.cap, card: min_card, runs: c.runs, typ: c.typ };
                    proof {
                        assert(all_span(inputs@, key));
                        assert(least_meta(inputs@, key, min_card as int));
                        lemma_shaped_push(out@, at, m);
                        assert forall|k: u16| #[trigger] all_span(inputs@, k) && k < key + 1 implies spans(
                            out@.push(m),
                            k,
                        ) by {
                            if k < key {
                                assert(spans(out@, k));
                            }
                        }
                        assert forall|k: u16| #[trigger] spans(out@.push(m), k) implies k < key + 1
                            && all_span(inputs@, k) && least_meta(
                            inputs@,
                            k,
                            meta_of(out@.push(m), k).card as int,
                        ) && meta_of(out@.push(m), k).cap == shrink_cap_spec(
                            meta_of(out@.push(m), k).card as int,
                        ) && and_kind(meta_of(out@.push(m), k), inputs@, k) by {
                            if k != key {
                                assert(spans(out@, k));
                            }
                        }
                    }
                    out.push(m);
                } else {
                    assert(!all_span(inputs@, key)) by {
                        let q = choose|q: int| 0 <= q < n && !spans((#[trigger] inputs@[q])@, key);
                        assert(!spans(inputs@[q]@, key));
                    }
                }
                proof {
                    at = key + 1;
                }
            },
        }
    }
    out
}

/// Some shape spans `key`.
pub open spec fn any_span(inputs: Seq<Shape>, key: u16) -> bool {
    exists|j: int| 0 <= j < inputs.len() && spans((#[trigger] inputs[j])@, key)
}

/// Sum of the bounds that the first `n` shapes give for `key`.
pub open spec fn cards(inputs: Seq<Shape>, n: int, key: u16) -> int
    decreases n,
{
    if n <= 0 {
        0
    } else {
        cards(inputs, n - 1, key) + if spans(inputs[n - 1]@, key) {
            meta_of(inputs[n - 1]@, key).card as int
        } else {
            0
        }
    }
}

/// The slot holds as many values as an entry bounds, as a bitmap or as an array.
pub open spec fn roomy(m: Meta) -> bool {
    m.cap == BITMAP_BYTES || 2 * m.card <= m.cap
}

/// The statistics of the entries that the first `n` shapes have for `key`, each standing for
/// as many operands as its weight.
pub open spec fn shape_stats(inputs: Seq<Shape>, weights: Seq<usize>, n: int, key: u16) -> UnionKey
    decreases n,
{
    if n <= 0 {
        no_stats()
    } else {
        let k = shape_stats(inputs, weights, n - 1, key);
        let m = meta_of(inputs[n - 1]@, key);
        if spans(inputs[n - 1]@, key) {
            UnionKey {
                sum_card: capped(k.sum_card + m.card) as u32,
                total_runs: wide(k.total_runs + m.runs) as usize,
                any_bitmap: k.any_bitmap || m.typ == CT_BITMAP,
                all_run: k.all_run && m.typ == CT_RUN,
                max_single: if m.cap > k.max_single {
                    m.cap
                } else {
                    k.max_single
                },
                n: wide(k.n + weights[n - 1]) as usize,
            }
        } else {
            k
        }
    }
}

/// The entry of an OR with statistics `k` for `key`.
pub open spec fn or_meta(k: UnionKey, key: u16) -> Meta {
    let typ = union_form(k, Fanin::Interior);
    Meta {
        key,
        cap: union_cap(k, Fanin::Interior) as u32,
        card: k.sum_card,
        runs: if typ == CT_RUN {
            k.total_runs as u16
        } else {
            0
        },
        typ,
    }
}

/// OR: the keys of any input, bounded by the sum. `weights[i]` is input `i`'s operand
/// count: a flattened sub-union stands for that many operands, and the fan-in that decides
/// on a bitmap counts it as such.
#[verifier::rlimit(40)]
pub fn union_shape(inputs: &Vec<Shape>, weights: &Vec<usize>) -> (r: Shape)
    requires
        forall|j: int| 0 <= j < inputs.len() ==> shape_ok((#[trigger] inputs@[j])@),
        weights.len() == inputs.len(),
    ensures
        shape_ok(r@),
        forall|key: u16| #[trigger] spans(r@, key) <==> any_span(inputs@, key),
        forall|key: u16| #[trigger]
            spans(r@, key) ==> roomy(meta_of(r@, key)) && meta_of(r@, key).card == capped(
                cards(inputs@, inputs.len() as int, key),
            ) && meta_of(r@, key) == or_meta(
                shape_stats(inputs@, weights@, inputs.len() as int, key),
                key,
            ),
{
    let n: usize = inputs.len();
    let mut curs: Vec<Cur> = open(inputs);
    let mut out: Vec<Meta> = Vec::new();
    let ghost mut at: int = 0;
    loop
        invariant
            n == inputs.len(),
            weights.len() == n,
            all_passed(inputs@, curs@, at),
            0 <= at <= 65536,
            shaped(out@, at),
            forall|key: u16| #[trigger] spans(out@, key) ==> any_span(inputs@, key) && key < at
                && roomy(meta_of(out@, key)) && meta_of(out@, key).card == capped(
                cards(inputs@, n as int, key),
            ) && meta_of(out@, key) == or_meta(
                shape_stats(inputs@, weights@, n as int, key),
                key,
            ),
            forall|key: u16| #[trigger] any_span(inputs@, key) && key < at ==> spans(out@, key),
        ensures
            forall|key: u16| #[trigger] any_span(inputs@, key) ==> key < at,
        decreases 65536 - at,
    {
        match min_key(&curs) {
            None => {
                proof {
                    assert forall|key: u16| #[trigger] any_span(inputs@, key) implies key < at by {
                        let j = choose|j: int| 0 <= j < inputs@.len() && spans((#[trigger] inputs@[j])@, key);
                        let k = choose|k: int| #[trigger] meta_at(inputs@[j]@, k, key);
                        assert(curs@[j].passed(at));
                        assert(curs@[j].s@[k].key < at);
                    }
                }
                break;
            },
            Some(key) => {
                let ghost before = curs@;
                proof {
                    let j = choose|j: int| 0 <= j < n && (#[trigger] before[j]).at_key(key);
                    assert(before[j].passed(at));
                    assert(before[j].s@[before[j].i as int].key >= at);
                    assert(meta_at(inputs@[j]@, before[j].i as int, key));
                    assert(spans(inputs@[j]@, key));
                    assert(any_span(inputs@, key));
                    assert forall|k: u16| #[trigger] any_span(inputs@, k) && k < key implies k < at by {
                        let q = choose|q: int| 0 <= q < inputs@.len() && spans((#[trigger] inputs@[q])@, k);
                        let m = choose|m: int| #[trigger] meta_at(inputs@[q]@, m, k);
                        assert(before[q].passed(at));
                        if m >= before[q].i {
                            assert(before[q].s@[m].key >= key);
                        }
                    }
                }
                let mut u: UnionKey = UnionKey {
                    sum_card: 0,
                    total_runs: 0,
                    any_bitmap: false,
                    all_run: true,
                    max_single: 0,
                    n: 0,
                };
                let mut j: usize = 0;
                while j < n
                    invariant
                        j <= n,
                        n == inputs.len(),
                        n == curs.len(),
                        weights.len() == n,
                        all_passed(inputs@, before, at),
                        at <= key,
                        forall|q: int, k: int|
                            0 <= q < n && before[q].i <= k < before[q].s@.len()
                                ==> #[trigger] before[q].s@[k].key >= key,
                        forall|q: int| j <= q < n ==> #[trigger] curs@[q] == before[q],
                        forall|q: int|
                            0 <= q < j ==> (#[trigger] curs@[q]).passed(key + 1) && *curs@[q].s
                                == inputs@[q],
                        u.sum_card == capped(cards(inputs@, j as int, key)),
                        u == shape_stats(inputs@, weights@, j as int, key),
                        u.max_single <= BITMAP_BYTES,
                    decreases n - j,
                {
                    let ghost c = before[j as int];
                    assert(c.passed(at) && *c.s == inputs@[j as int]);
                    assert(curs@[j as int] == c);
                    let hit: bool = match curs[j].key() {
                        Some(k) => k == key,
                        None => false,
                    };
                    assert forall|k: int| c.i <= k < c.s@.len() implies (#[trigger] c.s@[k]).key >= key by {
                        assert(before[j as int].s@[k].key >= key);
                    }
                    proof {
                        lemma_cards(inputs@, j as int, key);
                    }
                    if hit {
                        let m: Meta = curs[j].take();
                        proof {
                            c.lemma_took(curs@[j as int], at, key);
                            assert(meta_ok(m));
                        }
                        u.sum_card = u.sum_card.saturating_add(m.card);
                        u.total_runs = u.total_runs.saturating_add(m.runs as usize);
                        u.any_bitmap = u.any_bitmap || m.typ == CT_BITMAP;
                        u.all_run = u.all_run && m.typ == CT_RUN;
                        if m.cap > u.max_single {
                            u.max_single = m.cap;
                        }
                        u.n = u.n.saturating_add(weights[j]);
                    } else {
                        proof {
                            c.lemma_took(c, at, key);
                        }
                    }
                    j = j + 1;
                }
                let c: Choice = union_key(&u, Fanin::Interior);
                let m: Meta = Meta { key, cap: c.cap, card: u.sum_card, runs: c.runs, typ: c.typ };
                proof {
                    lemma_shaped_push(out@, at, m);
                    assert forall|k: u16| #[trigger] any_span(inputs@, k) && k < key + 1 implies spans(
                        out@.push(m),
                        k,
                    ) by {
                        if k < key {
                            assert(spans(out@, k));
                        }
                    }
                    assert forall|k: u16| #[trigger] spans(out@.push(m), k) implies any_span(inputs@, k)
                        && k < key + 1 && roomy(meta_of(out@.push(m), k)) && meta_of(
                        out@.push(m),
                        k,
                    ).card == capped(cards(inputs@, n as int, k)) && meta_of(out@.push(m), k)
                        == or_meta(shape_stats(inputs@, weights@, n as int, k), k) by {
                        if k != key {
                            assert(spans(out@, k));
                        }
                    }
                    at = key + 1;
                }
                out.push(m);
            },
        }
    }
    out
}

/// A sum kept in a word.
pub open spec fn wide(x: int) -> int {
    if x <= usize::MAX {
        x
    } else {
        usize::MAX as int
    }
}

/// A sum kept in 32 bits.
pub open spec fn capped(x: int) -> int {
    if x <= u32::MAX {
        x
    } else {
        u32::MAX as int
    }
}

proof fn lemma_cards(inputs: Seq<Shape>, n: int, key: u16)
    requires
        n >= 0,
    ensures
        cards(inputs, n, key) >= 0,
        cards(inputs, n + 1, key) == cards(inputs, n, key) + if spans(inputs[n]@, key) {
            meta_of(inputs[n]@, key).card as int
        } else {
            0
        },
    decreases n,
{
    if n > 0 {
        lemma_cards(inputs, n - 1, key);
    }
}

/// A subtrahend spans `key`.
pub open spec fn rest_span(inputs: Seq<Shape>, key: u16) -> bool {
    exists|j: int| 1 <= j < inputs.len() && spans((#[trigger] inputs[j])@, key)
}

/// Fragments that the subtrahends before input `n` can add under `key`: one for each of their
/// runs or array values.
pub open spec fn fragments(inputs: Seq<Shape>, n: int, key: u16) -> int
    decreases n,
{
    if n <= 1 {
        0
    } else {
        let m = meta_of(inputs[n - 1]@, key);
        fragments(inputs, n - 1, key) + if !spans(inputs[n - 1]@, key) {
            0
        } else if m.typ == CT_RUN {
            m.runs as int
        } else if m.typ == CT_ARRAY {
            m.card as int
        } else {
            0
        }
    }
}

proof fn lemma_fragments(inputs: Seq<Shape>, n: int, key: u16)
    ensures
        fragments(inputs, n, key) >= 0,
    decreases n,
{
    if n > 1 {
        lemma_fragments(inputs, n - 1, key);
    }
}

/// Every subtrahend before input `n` that spans `key` is runs or an array there.
pub open spec fn splittable(inputs: Seq<Shape>, n: int, key: u16) -> bool {
    forall|j: int|
        1 <= j < n && spans((#[trigger] inputs[j])@, key) ==> meta_of(inputs[j]@, key).typ == CT_RUN
            || meta_of(inputs[j]@, key).typ == CT_ARRAY
}

/// What a DIFF entry is to be, for the left-hand entry `l`.
pub open spec fn diff_meta(m: Meta, l: Meta, inputs: Seq<Shape>) -> bool {
    let n = inputs.len() as int;
    let c = diff_choice(
        DiffLhs { card: l.card, typ: l.typ, runs: l.runs, stored: l.cap },
        rest_span(inputs, l.key),
        splittable(inputs, n, l.key),
        l.runs + fragments(inputs, n, l.key),
    );
    &&& meta_ok(m)
    &&& m == (Meta { key: l.key, cap: c.cap, card: l.card, runs: c.runs, typ: c.typ })
}

/// DIFF: the first input's keys, the others only shrinking them. A subtrahend's shape may
/// span keys under which its result holds nothing, so a slot also holds the first input's
/// container as it is.
#[verifier::rlimit(40)]
pub fn diff_shape(inputs: &Vec<Shape>) -> (r: Shape)
    requires
        forall|j: int| 0 <= j < inputs.len() ==> shape_ok((#[trigger] inputs@[j])@),
    ensures
        shape_ok(r@),
        inputs.len() == 0 ==> r.len() == 0,
        inputs.len() > 0 ==> r.len() == inputs@[0].len() && forall|i: int|
            0 <= i < r.len() ==> diff_meta(#[trigger] r@[i], inputs@[0]@[i], inputs@),
{
    let n: usize = inputs.len();
    if n == 0 {
        return Vec::new();
    }
    let lhs: &Shape = &inputs[0];
    let mut out: Vec<Meta> = Vec::with_capacity(lhs.len());
    let mut curs: Vec<Cur> = open(inputs);
    let mut i: usize = 0;
    let ghost mut at: int = 0;
    assert(shape_ok(inputs@[0]@));
    while i < lhs.len()
        invariant
            *lhs == inputs@[0],
            n == inputs.len(),
            n > 0,
            shape_ok(lhs@),
            i <= lhs.len(),
            all_passed_from(inputs@, curs@, at),
            forall|k: int| i <= k < lhs.len() ==> (#[trigger] lhs@[k]).key >= at,
            out.len() == i,
            forall|k: int|
                0 <= k < i ==> diff_meta(#[trigger] out@[k], lhs@[k], inputs@),
        decreases lhs.len() - i,
    {
        let l: Meta = lhs[i];
        assert(meta_ok(lhs@[i as int]));
        assert(l.key >= at);
        let ghost before = curs@;
        let mut in_rhs: bool = false;
        let mut split: bool = true;
        let mut bound: usize = l.runs as usize;
        let mut j: usize = 1;
        while j < n
            invariant
                1 <= j <= n,
                n == inputs.len(),
                n == curs.len(),
                all_passed_from(inputs@, before, at),
                l.key >= at,
                forall|q: int| j <= q < n ==> #[trigger] curs@[q] == before[q],
                forall|q: int|
                    1 <= q < j ==> (#[trigger] curs@[q]).passed(l.key + 1) && *curs@[q].s
                        == inputs@[q],
                in_rhs <==> exists|q: int| 1 <= q < j && spans((#[trigger] inputs@[q])@, l.key),
                split ==> splittable(inputs@, j as int, l.key),
                !split ==> !splittable(inputs@, n as int, l.key),
                bound == wide(l.runs + fragments(inputs@, j as int, l.key)),
            decreases n - j,
        {
            assert(before[j as int].passed(at) && *before[j as int].s == inputs@[j as int]);
            assert(curs@[j as int] == before[j as int]);
            proof {
                lemma_fragments(inputs@, j as int, l.key);
            }
            match skip_to(&mut curs[j], l.key, Ghost(at)) {
                Some(m) => {
                    in_rhs = true;
                    assert(spans(inputs@[j as int]@, l.key));
                    if m.typ == CT_RUN {
                        bound = bound.saturating_add(m.runs as usize);
                    } else if m.typ == CT_ARRAY {
                        bound = bound.saturating_add(m.card as usize);
                    } else {
                        split = false;
                    }
                },
                None => {
                    assert(!spans(inputs@[j as int]@, l.key));
                },
            }
            j = j + 1;
        }
        assert(in_rhs == rest_span(inputs@, l.key));
        let d: DiffLhs = DiffLhs { card: l.card, typ: l.typ, runs: l.runs, stored: l.cap };
        let ch: Choice = diff_key_shape(&d, in_rhs, split, bound);
        out.push(Meta { key: l.key, cap: ch.cap, card: l.card, runs: ch.runs, typ: ch.typ });
        proof {
            at = l.key + 1;
            assert forall|k: int| i + 1 <= k < lhs.len() implies (#[trigger] lhs@[k]).key >= at by {
                assert(lhs@[i as int].key < lhs@[k].key);
            }
        }
        i = i + 1;
    }
    proof {
        assert forall|a: int, b: int| 0 <= a < b < out.len() implies (#[trigger] out@[a]).key < (
        #[trigger] out@[b]).key by {
            assert(lhs@[a].key < lhs@[b].key);
        }
    }
    out
}

/// The cursors but the first have passed the keys before `at`.
spec fn all_passed_from(inputs: Seq<Shape>, curs: Seq<Cur>, at: int) -> bool {
    &&& curs.len() == inputs.len()
    &&& forall|j: int|
        1 <= j < curs.len() ==> (#[trigger] curs[j]).passed(at) && *curs[j].s == inputs[j]
}

/// Pass the entries before `key`, and take that of `key` if there is one.
fn skip_to(c: &mut Cur, key: u16, Ghost(at): Ghost<int>) -> (r: Option<Meta>)
    requires
        old(c).passed(at),
        at <= key,
    ensures
        final(c).s == old(c).s,
        final(c).passed(key + 1),
        r is Some <==> spans(old(c).s@, key),
        r matches Some(m) ==> m == meta_of(old(c).s@, key),
{
    while c.i < c.s.len() && c.s[c.i].key < key
        invariant
            c.s == old(c).s,
            c.wf(),
            forall|k: int| 0 <= k < c.i ==> (#[trigger] c.s@[k]).key < key,
        decreases c.s.len() - c.i,
    {
        c.take();
    }
    let ghost c0 = *c;
    proof {
        assert forall|k: int| c.i <= k < c.s@.len() implies (#[trigger] c.s@[k]).key >= key by {
            if c.i < k {
                assert(c.s@[c.i as int].key < c.s@[k].key);
            }
        }
    }
    let hit: bool = match c.key() {
        Some(k) => k == key,
        None => false,
    };
    if hit {
        let m: Meta = c.take();
        proof {
            c0.lemma_took(*c, key as int, key);
        }
        Some(m)
    } else {
        proof {
            c0.lemma_took(*c, key as int, key);
        }
        None
    }
}

} // verus!
