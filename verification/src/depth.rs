//! How deep the operand stack of a manifest gets.
//!
//! The analysis knows the peak of the stack before anything runs: every step pushes or pops
//! a known number of operands, and a guard jumps to where the stack is as high as it leaves
//! it.
use vstd::prelude::*;

use crate::machine::{
    empty_val, folded_val, leaf_val, open_guard, owned_val, patch, resolved, run, same_code,
    same_step, strip, Step, Val,
};

verus! {

/// Operands a step adds.
pub open spec fn effect<'a>(s: Step<'a>) -> int {
    match s {
        Step::Leaf(_) => 1,
        Step::Owned(_) => 1,
        Step::Combine(k, _) => 1 - k,
        Step::Guard { .. } => 0,
    }
}

/// Operands `code` leaves, unless it jumps.
pub open spec fn height<'a>(code: Seq<Step<'a>>) -> int
    decreases code.len(),
{
    if code.len() == 0 {
        0
    } else {
        height(code.drop_last()) + effect(code.last())
    }
}

/// The most operands there are after any of the first steps of `code`.
pub open spec fn peak<'a>(code: Seq<Step<'a>>) -> int
    decreases code.len(),
{
    if code.len() == 0 {
        0
    } else {
        let p = peak(code.drop_last());
        if height(code) > p {
            height(code)
        } else {
            p
        }
    }
}

/// Guard `i` jumps to where the stack is as high as it leaves it; one that is still open
/// drops all there is.
pub open spec fn level_at<'a>(code: Seq<Step<'a>>, i: int) -> bool {
    code[i] matches Step::Guard { skip, pop } ==> {
        &&& skip == 0 ==> pop == height(code.take(i))
        &&& skip > 0 ==> i + skip <= code.len() && height(code.take(i + skip)) == height(
            code.take(i),
        ) - pop + 1
    }
}

/// Every guard keeps the stack level.
pub open spec fn level<'a>(code: Seq<Step<'a>>) -> bool {
    forall|i: int| 0 <= i < code.len() ==> #[trigger] level_at(code, i)
}

/// A step adds one operand at most.
pub proof fn lemma_peak<'a>(code: Seq<Step<'a>>)
    ensures
        0 <= peak(code) <= code.len(),
        height(code) <= peak(code),
    decreases code.len(),
{
    if code.len() > 0 {
        lemma_peak(code.drop_last());
    }
}

/// What comes second stands on what came first.
pub proof fn lemma_height_both<'a>(a: Seq<Step<'a>>, b: Seq<Step<'a>>)
    ensures
        height(a + b) == height(a) + height(b),
        peak(a + b) == (if height(a) + peak(b) > peak(a) {
            height(a) + peak(b)
        } else {
            peak(a)
        }),
    decreases b.len(),
{
    lemma_peak(a);
    if b.len() == 0 {
        assert(a + b =~= a);
    } else {
        assert((a + b).drop_last() =~= a + b.drop_last());
        lemma_height_both(a, b.drop_last());
    }
}

/// No step leaves more than the peak.
pub proof fn lemma_height_take<'a>(code: Seq<Step<'a>>, i: int)
    requires
        0 <= i <= code.len(),
    ensures
        height(code.take(i)) <= peak(code),
    decreases code.len(),
{
    lemma_peak(code);
    if i == code.len() {
        assert(code.take(i) =~= code);
    } else {
        assert(code.take(i) =~= code.drop_last().take(i));
        lemma_height_take(code.drop_last(), i);
    }
}

/// One more step.
pub proof fn lemma_height_next<'a>(code: Seq<Step<'a>>, i: int)
    requires
        0 <= i < code.len(),
    ensures
        height(code.take(i + 1)) == height(code.take(i)) + effect(code[i]),
{
    assert(code.take(i + 1).drop_last() =~= code.take(i));
}

/// Guards add nothing.
pub proof fn lemma_height_strip<'a>(code: Seq<Step<'a>>)
    ensures
        height(strip(code)) == height(code),
        peak(strip(code)) == peak(code),
        level(strip(code)),
    decreases code.len(),
{
    if code.len() > 0 {
        let t = strip(code.drop_last());
        lemma_height_strip(code.drop_last());
        lemma_peak(code.drop_last());
        if !(code.last() is Guard) {
            assert(t.push(code.last()).drop_last() =~= t);
        }
    }
    crate::machine::lemma_strip_ok(code);
    assert forall|i: int| 0 <= i < strip(code).len() implies #[trigger] level_at(strip(code), i) by {
        assert(!(strip(code)[i] is Guard));
    }
}

/// Where a guard jumps does not matter to the height.
pub proof fn lemma_height_patch<'a>(code: Seq<Step<'a>>, target: int)
    ensures
        height(patch(code, target)) == height(code),
        peak(patch(code, target)) == peak(code),
    decreases code.len(),
{
    if code.len() > 0 {
        assert(patch(code, target).drop_last() =~= patch(code.drop_last(), target));
        lemma_height_patch(code.drop_last(), target);
    }
}

/// Steps that do the same are as high.
pub proof fn lemma_height_same<'a>(a: Seq<Step<'a>>, b: Seq<Step<'a>>)
    requires
        same_code(a, b),
    ensures
        height(a) == height(b),
        peak(a) == peak(b),
    decreases a.len(),
{
    if a.len() > 0 {
        let n = a.len() as int;
        assert(same_step(a[n - 1], b[n - 1]));
        lemma_same_take(a, b, n - 1);
        assert(a.take(n - 1) =~= a.drop_last());
        assert(b.take(n - 1) =~= b.drop_last());
        lemma_height_same(a.drop_last(), b.drop_last());
    }
}

proof fn lemma_same_take<'a>(a: Seq<Step<'a>>, b: Seq<Step<'a>>, i: int)
    requires
        same_code(a, b),
        0 <= i <= a.len(),
    ensures
        same_code(a.take(i), b.take(i)),
{
    assert forall|k: int| 0 <= k < i implies same_step(#[trigger] a.take(i)[k], b.take(i)[k]) by {
        assert(same_step(a[k], b[k]));
    }
}

/// Steps that do the same are as level.
pub proof fn lemma_level_same<'a>(a: Seq<Step<'a>>, b: Seq<Step<'a>>)
    requires
        same_code(a, b),
        level(a),
    ensures
        level(b),
{
    assert forall|i: int| 0 <= i < b.len() implies #[trigger] level_at(b, i) by {
        assert(level_at(a, i));
        assert(same_step(a[i], b[i]));
        lemma_same_take(a, b, i);
        lemma_height_same(a.take(i), b.take(i));
        if let Step::Guard { skip, pop } = a[i] {
            if skip > 0 {
                lemma_same_take(a, b, i + skip);
                lemma_height_same(a.take(i + skip), b.take(i + skip));
            }
        }
    }
}

/// Level code followed by level code without open guards.
pub proof fn lemma_level_both<'a>(a: Seq<Step<'a>>, b: Seq<Step<'a>>)
    requires
        level(a),
        level(b),
        resolved(b),
    ensures
        level(a + b),
{
    let c = a + b;
    let n = a.len() as int;
    assert forall|i: int| 0 <= i < c.len() implies #[trigger] level_at(c, i) by {
        if i < n {
            assert(level_at(a, i));
            assert(c.take(i) =~= a.take(i));
            if let Step::Guard { skip, pop } = a[i] {
                if skip > 0 {
                    assert(c.take(i + skip) =~= a.take(i + skip));
                }
            }
        } else {
            let k = i - n;
            assert(level_at(b, k));
            assert(!open_guard(b[k]));
            assert(c.take(i) =~= a + b.take(k));
            lemma_height_both(a, b.take(k));
            if let Step::Guard { skip, pop } = b[k] {
                assert(c.take(i + skip) =~= a + b.take(k + skip));
                lemma_height_both(a, b.take(k + skip));
            }
        }
    }
}

/// An open guard that drops all there is.
pub proof fn lemma_level_guard<'a>(code: Seq<Step<'a>>, pop: usize)
    requires
        level(code),
        pop == height(code),
    ensures
        level(code.push(Step::Guard { skip: 0, pop })),
        height(code.push(Step::Guard { skip: 0, pop })) == height(code),
        peak(code.push(Step::Guard { skip: 0, pop })) == peak(code),
{
    let n = code.len() as int;
    let c = code.push(Step::Guard { skip: 0, pop });
    assert(c.drop_last() =~= code);
    lemma_peak(code);
    assert forall|i: int| 0 <= i < c.len() implies #[trigger] level_at(c, i) by {
        assert(c.take(i) =~= code.take(i));
        if i < n {
            assert(level_at(code, i));
            if let Step::Guard { skip, pop } = code[i] {
                if skip > 0 {
                    assert(c.take(i + skip) =~= code.take(i + skip));
                }
            }
        } else {
            assert(code.take(n) =~= code);
        }
    }
}

/// The last fold leaves one operand, which is where the open guards then jump.
pub proof fn lemma_level_fold<'a>(code: Seq<Step<'a>>, last: Step<'a>)
    requires
        level(code),
        code.len() < usize::MAX,
        effect(last) == 1 - height(code),
        last is Combine,
    ensures
        level(patch(code.push(last), (code.len() + 1) as int)),
        height(patch(code.push(last), (code.len() + 1) as int)) == 1,
        peak(patch(code.push(last), (code.len() + 1) as int)) == (if peak(code) > 1 {
            peak(code)
        } else {
            1
        }),
{
    let n = code.len() as int;
    let c = code.push(last);
    let p = patch(c, n + 1);
    assert(c.drop_last() =~= code);
    lemma_height_patch(c, n + 1);
    assert forall|i: int| 0 <= i < p.len() implies #[trigger] level_at(p, i) by {
        if i < n {
            assert(level_at(code, i));
            assert(p.take(i) =~= patch(code.take(i), n + 1));
            lemma_height_patch(code.take(i), n + 1);
            if let Step::Guard { skip, pop } = code[i] {
                if skip > 0 {
                    assert(p.take(i + skip) =~= patch(code.take(i + skip), n + 1));
                    lemma_height_patch(code.take(i + skip), n + 1);
                } else {
                    assert(p.take(n + 1) =~= p);
                }
            }
        }
    }
}

/// The most operands there are while `code` runs on a stack.
pub open spec fn most<'a>(code: Seq<Step<'a>>, stack: Seq<Val>, mask: Set<u16>) -> int
    decreases code.len(),
{
    let n = stack.len() as int;
    if code.len() == 0 {
        n
    } else {
        let next = match code[0] {
            Step::Leaf(v) => most(code.skip(1), stack.push(leaf_val(v.src(), v@, mask)), mask),
            Step::Owned(b) => most(code.skip(1), stack.push(owned_val(b, mask)), mask),
            Step::Combine(k, plan) => most(
                code.skip(1),
                stack.take(n - k).push(folded_val(plan, stack.skip(n - k))),
                mask,
            ),
            Step::Guard { skip, pop } => if 1 <= skip <= code.len() && n > 0 && stack[n - 1].void {
                most(code.skip(skip as int), stack.take(n - pop).push(empty_val()), mask)
            } else {
                most(code.skip(1), stack, mask)
            },
        };
        if next > n {
            next
        } else {
            n
        }
    }
}

/// The operand stack never outgrows what the analysis reserves for it, whatever the operands
/// hold and whichever guards jump.
pub proof fn law_depth<'a>(code: Seq<Step<'a>>, mask: Set<u16>)
    requires
        level(code),
        run(code, Seq::empty(), mask) is Some,
    ensures
        most(code, Seq::empty(), mask) <= peak(code),
{
    assert(code.skip(0) =~= code);
    assert(code.take(0) =~= Seq::<Step<'a>>::empty());
    lemma_most(code, 0, Seq::empty(), mask);
}

proof fn lemma_most<'a>(code: Seq<Step<'a>>, i: int, stack: Seq<Val>, mask: Set<u16>)
    requires
        level(code),
        0 <= i <= code.len(),
        stack.len() == height(code.take(i)),
        run(code.skip(i), stack, mask) is Some,
    ensures
        most(code.skip(i), stack, mask) <= peak(code),
    decreases code.len() - i,
{
    lemma_height_take(code, i);
    let rest = code.skip(i);
    let n = stack.len() as int;
    if i < code.len() {
        assert(rest[0] == code[i]);
        assert(rest.skip(1) =~= code.skip(i + 1));
        assert(level_at(code, i));
        lemma_height_next(code, i);
        match code[i] {
            Step::Leaf(v) => {
                lemma_most(code, i + 1, stack.push(leaf_val(v.src(), v@, mask)), mask);
            },
            Step::Owned(b) => {
                lemma_most(code, i + 1, stack.push(owned_val(b, mask)), mask);
            },
            Step::Combine(k, plan) => {
                lemma_most(
                    code,
                    i + 1,
                    stack.take(n - k).push(folded_val(plan, stack.skip(n - k))),
                    mask,
                );
            },
            Step::Guard { skip, pop } => {
                if stack[n - 1].void {
                    assert(rest.skip(skip as int) =~= code.skip(i + skip));
                    lemma_most(code, i + skip, stack.take(n - pop).push(empty_val()), mask);
                } else {
                    lemma_most(code, i + 1, stack, mask);
                }
            },
        }
    }
}

} // verus!
