//! What running a manifest asks of a pool of working memory.
//!
//! A fold takes one buffer and gives back those of the operands it has read. A guard that
//! jumps gives back those it drops. So what is idle, what is out, and how many requests were
//! over budget follow from the steps, the values and the budget alone.
use vstd::prelude::*;

use crate::machine::{
    empty_val, folded_val, lemma_same_skip, leaf_val, owned_val, same_code, same_step, Step, Val,
};
use crate::memory::Buffers;
use crate::pool::{Limits, OnOverflow};

verus! {

/// How a pool of working memory stands.
pub struct Account {
    /// Buffers held for reuse.
    pub idle: int,
    /// Buffers handed out.
    pub out: int,
    /// Requests that exceeded the budget.
    pub over: int,
}

/// How the working memory of `p` stands.
pub open spec fn account(p: Buffers) -> Account {
    Account { idle: p.arenas().idle().len() as int, out: p.arenas().out() as int, over: p.over() as int }
}

/// The next request exceeds the budget.
pub open spec fn strained(c: Account, limits: Limits) -> bool {
    c.idle == 0 && c.out + 1 > limits.buffers
}

/// The next request is refused.
pub open spec fn denied(c: Account, limits: Limits) -> bool {
    strained(c, limits) && limits.on_overflow == OnOverflow::Fail
}

/// A buffer was asked for.
pub open spec fn charged(c: Account, limits: Limits) -> Account {
    Account {
        idle: if c.idle > 0 {
            c.idle - 1
        } else {
            0
        },
        out: c.out + 1,
        over: if strained(c, limits) && c.over < u64::MAX {
            c.over + 1
        } else {
            c.over
        },
    }
}

/// `n` buffers came back; those past the budget are dropped.
pub open spec fn credited(c: Account, n: int, limits: Limits) -> Account
    decreases n,
{
    if n <= 0 {
        c
    } else {
        let d = credited(c, n - 1, limits);
        Account {
            idle: if d.idle < limits.buffers {
                d.idle + 1
            } else {
                d.idle
            },
            out: if d.out > 0 {
                d.out - 1
            } else {
                0
            },
            over: d.over,
        }
    }
}

/// Operands that hold a buffer.
pub open spec fn holders(holds: Seq<bool>) -> int
    decreases holds.len(),
{
    if holds.len() == 0 {
        0
    } else {
        holders(holds.drop_last()) + if holds.last() {
            1int
        } else {
            0
        }
    }
}

/// There are no more holders than operands.
pub proof fn lemma_holders(holds: Seq<bool>)
    ensures
        0 <= holders(holds) <= holds.len(),
    decreases holds.len(),
{
    if holds.len() > 0 {
        lemma_holders(holds.drop_last());
    }
}

/// One more operand.
pub proof fn lemma_holders_push(holds: Seq<bool>, h: bool)
    ensures
        holders(holds.push(h)) == holders(holds) + if h {
            1int
        } else {
            0
        },
{
    assert(holds.push(h).drop_last() =~= holds);
}

/// The operands above the first `keep` hold what those do not.
pub proof fn lemma_holders_split(holds: Seq<bool>, keep: int)
    requires
        0 <= keep <= holds.len(),
    ensures
        holders(holds) == holders(holds.take(keep)) + holders(holds.skip(keep)),
    decreases holds.len(),
{
    if keep == holds.len() {
        assert(holds.take(keep) =~= holds);
    } else {
        lemma_holders_split(holds.drop_last(), keep);
        assert(holds.drop_last().take(keep) =~= holds.take(keep));
        assert(holds.drop_last().skip(keep) =~= holds.skip(keep).drop_last());
    }
}

/// Run `code` on operands of which `holds` hold a buffer, from `c` on. How the pool stands
/// once the last of them is given back, and whether no request was refused: a refused one
/// gives everything back at once.
pub open spec fn spent<'a>(
    code: Seq<Step<'a>>,
    stack: Seq<Val>,
    holds: Seq<bool>,
    mask: Set<u16>,
    limits: Limits,
    c: Account,
) -> (Account, bool)
    decreases code.len(),
{
    if code.len() == 0 {
        (credited(c, holders(holds), limits), true)
    } else {
        let n = stack.len() as int;
        match code[0] {
            Step::Leaf(v) => spent(
                code.skip(1),
                stack.push(leaf_val(v.src(), v@, mask)),
                holds.push(false),
                mask,
                limits,
                c,
            ),
            Step::Owned(b) => spent(
                code.skip(1),
                stack.push(owned_val(b, mask)),
                holds.push(false),
                mask,
                limits,
                c,
            ),
            Step::Combine(k, plan) => {
                let d = charged(c, limits);
                if denied(c, limits) {
                    (credited(d, holders(holds), limits), false)
                } else {
                    spent(
                        code.skip(1),
                        stack.take(n - k).push(folded_val(plan, stack.skip(n - k))),
                        holds.take(n - k).push(true),
                        mask,
                        limits,
                        credited(d, holders(holds.skip(n - k)), limits),
                    )
                }
            },
            Step::Guard { skip, pop } => if 1 <= skip <= code.len() && stack[n - 1].void {
                spent(
                    code.skip(skip as int),
                    stack.take(n - pop).push(empty_val()),
                    holds.take(n - pop).push(false),
                    mask,
                    limits,
                    credited(c, holders(holds.skip(n - pop)), limits),
                )
            } else {
                spent(code.skip(1), stack, holds, mask, limits, c)
            },
        }
    }
}

/// Steps that do the same ask for the same.
pub proof fn lemma_spent_same<'a>(
    a: Seq<Step<'a>>,
    b: Seq<Step<'a>>,
    stack: Seq<Val>,
    holds: Seq<bool>,
    mask: Set<u16>,
    limits: Limits,
    c: Account,
)
    requires
        same_code(a, b),
    ensures
        spent(a, stack, holds, mask, limits, c) == spent(b, stack, holds, mask, limits, c),
    decreases a.len(),
{
    if a.len() > 0 {
        assert(same_step(a[0], b[0]));
        let n = stack.len() as int;
        lemma_same_skip(a, b, 1);
        let (x, y) = (a.skip(1), b.skip(1));
        match (a[0], b[0]) {
            (Step::Leaf(v), _) => {
                let next = stack.push(leaf_val(v.src(), v@, mask));
                lemma_spent_same(x, y, next, holds.push(false), mask, limits, c);
            },
            (Step::Owned(o), _) => {
                let next = stack.push(owned_val(o, mask));
                lemma_spent_same(x, y, next, holds.push(false), mask, limits, c);
            },
            (Step::Combine(k, p), Step::Combine(l, q)) => {
                let vs = stack.skip(n - k);
                assert(folded_val(p, vs) == folded_val(q, vs));
                lemma_spent_same(
                    x,
                    y,
                    stack.take(n - k).push(folded_val(p, vs)),
                    holds.take(n - k).push(true),
                    mask,
                    limits,
                    credited(charged(c, limits), holders(holds.skip(n - k)), limits),
                );
            },
            (Step::Guard { skip, pop }, _) => {
                if 1 <= skip <= a.len() && stack[n - 1].void {
                    lemma_same_skip(a, b, skip as int);
                    lemma_spent_same(
                        a.skip(skip as int),
                        b.skip(skip as int),
                        stack.take(n - pop).push(empty_val()),
                        holds.take(n - pop).push(false),
                        mask,
                        limits,
                        credited(c, holders(holds.skip(n - pop)), limits),
                    );
                } else {
                    lemma_spent_same(x, y, stack, holds, mask, limits, c);
                }
            },
            _ => {},
        }
    }
}

/// Buffers that come back are no longer out, and are idle up to the budget; what was over it
/// stays counted.
pub proof fn law_credited(c: Account, n: int, limits: Limits)
    requires
        n >= 0,
        c.idle >= 0,
        c.out >= 0,
    ensures
        ({
            let d = credited(c, n, limits);
            &&& d.out == (if c.out >= n {
                c.out - n
            } else {
                0
            })
            &&& c.idle + n <= limits.buffers ==> d.idle == c.idle + n
            &&& c.idle <= limits.buffers < c.idle + n ==> d.idle == limits.buffers
            &&& c.idle > limits.buffers ==> d.idle == c.idle
            &&& d.over == c.over
        }),
    decreases n,
{
    if n > 0 {
        law_credited(c, n - 1, limits);
    }
}

/// A request takes an idle buffer where there is one, and is over the budget only where there
/// is none and as many are out as the budget allows. Given back at once it leaves as many out
/// as there were.
pub proof fn law_charged(c: Account, limits: Limits)
    requires
        c.idle >= 0,
        c.out >= 0,
    ensures
        c.idle > 0 ==> !strained(c, limits) && charged(c, limits).idle == c.idle - 1,
        c.out < limits.buffers ==> !strained(c, limits),
        c.idle == 0 && c.out >= limits.buffers ==> strained(c, limits),
        !strained(c, limits) ==> charged(c, limits).over == c.over,
        strained(c, limits) && c.over < u64::MAX ==> charged(c, limits).over == c.over + 1,
        limits.on_overflow == OnOverflow::Allocate ==> !denied(c, limits),
        credited(charged(c, limits), 1, limits).out == c.out,
        0 < c.idle <= limits.buffers ==> credited(charged(c, limits), 1, limits) == c,
{
    reveal_with_fuel(credited, 2);
}

} // verus!
