//! The one place per-key container decisions are made.
//!
//! Two passes size the same output: the cursor-driven flat planner, which sees live
//! containers, and the shape-driven tree analyzer, which sees a child's summarized
//! output. A slot capacity is only proven if it covers what the kernel will build
//! there, so both take their rules from here.
use vstd::prelude::*;

use crate::format::{
    run_bytes, ARRAY_MAX_SIZE, BITMAP_BYTES, CT_ARRAY, CT_BITMAP, CT_RUN, MAX_RUNS,
};

verus! {

/// What one output key becomes: the container type the kernel will build, the arena
/// slot bytes that hold every state the fold passes through, and, for a run result,
/// the run count that bound assumes.
#[derive(Debug, Clone, Copy, PartialEq, Eq, Structural)]
pub struct Choice {
    pub typ: u8,
    pub cap: u32,
    pub runs: u16,
}

/// Slot ceiling for a key that can only shrink from a seed of `card` values.
pub open spec fn shrink_cap_spec(card: int) -> int {
    if card <= ARRAY_MAX_SIZE {
        2 * card
    } else {
        BITMAP_BYTES as int
    }
}

/// Slot ceiling for a key that can only shrink from a seed of `card` values (AND and
/// DIFF): array form while it fits, else a bitmap.
pub fn shrink_cap(card: u32) -> (r: u32)
    ensures
        r == shrink_cap_spec(card as int),
        r <= BITMAP_BYTES,
{
    if card as usize <= ARRAY_MAX_SIZE {
        card * 2
    } else {
        BITMAP_BYTES as u32
    }
}

/// AND at one key. The result is a subset of the smallest input there, so the slot is
/// sized from `min_card`; the type follows the accumulator the kernel picks: an array
/// while it fits, native runs when every input is run-encoded and they stay under the
/// run ceiling, else a bitmap.
pub fn intersect_key(min_card: u32, all_run: bool, total_runs: usize) -> (r: Choice)
    ensures
        r.cap == shrink_cap_spec(min_card as int),
        r.cap <= BITMAP_BYTES,
        r.typ == (if min_card <= ARRAY_MAX_SIZE {
            CT_ARRAY
        } else if all_run && total_runs <= MAX_RUNS {
            CT_RUN
        } else {
            CT_BITMAP
        }),
        r.runs == (if r.typ == CT_RUN {
            total_runs as u16
        } else {
            0
        }),
        r.runs <= MAX_RUNS,
{
    let (typ, runs): (u8, u16) = if min_card as usize <= ARRAY_MAX_SIZE {
        (CT_ARRAY, 0)
    } else if all_run && total_runs <= MAX_RUNS {
        (CT_RUN, total_runs as u16)
    } else {
        (CT_BITMAP, 0)
    };
    Choice { typ, cap: shrink_cap(min_card), runs }
}

/// Which union promotion rule applies.
#[derive(Debug, Clone, Copy, PartialEq, Eq, Structural)]
pub enum Fanin {
    /// A flat, one-shot union: promote on the measured break-even.
    Flat,
    /// A union inside a tree, whose result a parent fold consumes: conservative.
    Interior,
}

/// Merged per-key statistics for a union.
#[derive(Debug, Clone, Copy, PartialEq, Eq, Structural)]
pub struct UnionKey {
    /// Sum of the cardinalities of the inputs present at this key (saturating).
    pub sum_card: u32,
    /// Sum of their run counts.
    pub total_runs: usize,
    /// Any input is already a bitmap.
    pub any_bitmap: bool,
    /// Every input is run-encoded.
    pub all_run: bool,
    /// Largest single input's stored bytes: the slot must hold a lone copy.
    pub max_single: u32,
    /// How many inputs are present.
    pub n: usize,
}

/// The array/bitmap boundary, shared by every op.
pub const UNION_DENSE_CARD: u32 = 4096;

/// Fan-in past which the promotion formula is out of its fitted range.
pub const MAX_UNION_FANIN: usize = 1048576;

/// With `n` containers of `sum_card` values in all at a key, a bitmap accumulator is
/// cheaper than repeated array merges.
pub open spec fn promotes(n: int, sum_card: int) -> bool {
    if n < 2 {
        false
    } else if n > MAX_UNION_FANIN {
        true
    } else {
        sum_card * (85 * n * (n + 1) - 86 * n - 170) > 40_000 * n
    }
}

/// Fan-in-aware union promotion. A lone container at a key is copied, never merged,
/// so it never promotes; past the fitted range it always does.
pub fn union_promotes(n: usize, sum_card: u32) -> (r: bool)
    ensures
        r == promotes(n as int, sum_card as int),
{
    if n < 2 {
        return false;
    }
    if n > MAX_UNION_FANIN {
        return true;
    }
    let m: u128 = n as u128;
    assert(0 <= 86 * m + 170 <= 85 * m * (m + 1) <= 85 * 1048576 * 1048577) by (nonlinear_arith)
        requires
            2 <= m <= 1048576,
    ;
    let coef: u128 = 85 * m * (m + 1) - 86 * m - 170;
    assert(0 <= sum_card * coef <= 0xFFFF_FFFF * (85 * 1048576 * 1048577)) by (nonlinear_arith)
        requires
            0 <= sum_card <= 0xFFFF_FFFF,
            0 <= coef <= 85 * 1048576 * 1048577,
    ;
    sum_card as u128 * coef > 40_000 * m
}

/// Tree-interior promotion: never at a fan-in of three or less.
pub open spec fn promotes_interior(n: int, sum_card: int) -> bool {
    n >= 4 && sum_card * (n - 3) > 1000
}

/// Tree-interior promotion: conservative, because a bitmap intermediate is consumed by
/// a parent fold.
pub fn union_promotes_interior(n: usize, sum_card: u32) -> (r: bool)
    ensures
        r == promotes_interior(n as int, sum_card as int),
{
    if n < 4 {
        return false;
    }
    let m: u128 = (n - 3) as u128;
    assert(0 <= sum_card * m <= 0xFFFF_FFFF * 0xFFFF_FFFF_FFFF_FFFF) by (nonlinear_arith)
        requires
            0 <= sum_card <= 0xFFFF_FFFF,
            0 <= m <= 0xFFFF_FFFF_FFFF_FFFF,
    ;
    sum_card as u128 * m > 1000
}

/// The union at this key is accumulated in a bitmap-sized slot.
pub open spec fn needs_bitmap(k: UnionKey, fanin: Fanin) -> bool {
    ||| k.any_bitmap
    ||| k.sum_card > UNION_DENSE_CARD
    ||| k.total_runs > MAX_RUNS
    ||| match fanin {
        Fanin::Flat => promotes(k.n as int, k.sum_card as int),
        Fanin::Interior => promotes_interior(k.n as int, k.sum_card as int),
    }
}

/// Slot ceiling for a key of a union: a bitmap where one is needed, else the largest of the
/// merged array, the coalesced runs and a lone copy.
pub open spec fn union_cap(k: UnionKey, fanin: Fanin) -> int {
    if needs_bitmap(k, fanin) {
        BITMAP_BYTES as int
    } else {
        let merged = if 2 * k.sum_card >= 2 + 4 * k.total_runs {
            2 * k.sum_card
        } else {
            2 + 4 * k.total_runs
        };
        if merged >= k.max_single {
            merged
        } else {
            k.max_single as int
        }
    }
}

/// Form of a key of a union: an array, or in a bitmap-sized slot runs, if there is nothing
/// else and they stay under the run ceiling, or a bitmap.
pub open spec fn union_form(k: UnionKey, fanin: Fanin) -> u8 {
    if !needs_bitmap(k, fanin) {
        CT_ARRAY
    } else if k.all_run && k.n > 0 && k.total_runs <= MAX_RUNS {
        CT_RUN
    } else {
        CT_BITMAP
    }
}

/// OR at one key: a bitmap when any input already is one, when the merged cardinality
/// outgrows an array, when the runs outgrow a bitmap, or when the fan-in makes
/// scatter-then-count cheaper than repeated merges; otherwise an array, whose slot
/// must also hold the coalesced-run and lone-copy forms.
pub fn union_key(k: &UnionKey, fanin: Fanin) -> (r: Choice)
    requires
        k.max_single <= BITMAP_BYTES,
    ensures
        r.cap <= BITMAP_BYTES,
        r.runs <= MAX_RUNS,
        r.cap == union_cap(*k, fanin),
        r.typ == union_form(*k, fanin),
        r.runs == (if r.typ == CT_RUN {
            k.total_runs as u16
        } else {
            0
        }),
        r.typ == CT_ARRAY ==> k.sum_card <= ARRAY_MAX_SIZE,
{
    let needs: bool = k.any_bitmap || k.sum_card > UNION_DENSE_CARD || k.total_runs > MAX_RUNS
        || match fanin {
        Fanin::Flat => union_promotes(k.n, k.sum_card),
        Fanin::Interior => union_promotes_interior(k.n, k.sum_card),
    };
    if !needs {
        let mut cap: u32 = k.sum_card * 2;
        let run_form: u32 = run_bytes(k.total_runs) as u32;
        if run_form > cap {
            cap = run_form;
        }
        if k.max_single > cap {
            cap = k.max_single;
        }
        return Choice { typ: CT_ARRAY, cap, runs: 0 };
    }
    // Run with run coalesces natively and stays a run container, but it is accumulated
    // in a bitmap-sized slot so either form fits.
    if k.all_run && k.n > 0 && k.total_runs <= MAX_RUNS {
        return Choice { typ: CT_RUN, cap: BITMAP_BYTES as u32, runs: k.total_runs as u16 };
    }
    Choice { typ: CT_BITMAP, cap: BITMAP_BYTES as u32, runs: 0 }
}

/// The left-hand container at one key of a difference.
#[derive(Debug, Clone, Copy, PartialEq, Eq, Structural)]
pub struct DiffLhs {
    pub card: u32,
    pub typ: u8,
    pub runs: u16,
    /// Bytes the container may occupy copied as it is: what an untouched key costs.
    pub stored: u32,
}

/// Slot ceiling for DIFF at one key: copied verbatim where no subtrahend touches it,
/// else it can only shrink.
pub fn diff_cap(card: u32, stored: u32, in_rhs: bool) -> (r: u32)
    ensures
        r == (if in_rhs {
            shrink_cap_spec(card as int)
        } else {
            stored as int
        }),
{
    if in_rhs {
        shrink_cap(card)
    } else {
        stored
    }
}

/// What DIFF makes of one key: the left-hand container as it is, unless a subtrahend touches
/// it and what it shrinks to takes the larger slot.
pub open spec fn diff_choice(lhs: DiffLhs, in_rhs: bool, splittable: bool, run_bound: int) -> Choice {
    let shrunk = shrink_cap_spec(lhs.card as int);
    if !in_rhs || lhs.stored >= shrunk {
        Choice { typ: lhs.typ, cap: lhs.stored, runs: lhs.runs }
    } else if lhs.card <= ARRAY_MAX_SIZE {
        Choice { typ: CT_ARRAY, cap: shrunk as u32, runs: 0 }
    } else if lhs.typ == CT_RUN && splittable && run_bound <= MAX_RUNS {
        Choice { typ: CT_RUN, cap: shrunk as u32, runs: run_bound as u16 }
    } else {
        Choice { typ: CT_BITMAP, cap: shrunk as u32, runs: 0 }
    }
}

/// DIFF at one key, for the tree analyzer, which knows that the right-hand shape spans
/// this key but not that the right-hand result will hold a container there. Where it
/// does not, the left-hand container is copied verbatim, so the slot holds whichever
/// of the two is larger.
///
/// `splittable` says that every subtrahend here is a run or an array, and `run_bound`
/// is the worst-case fragment count.
pub fn diff_key_shape(lhs: &DiffLhs, in_rhs: bool, splittable: bool, run_bound: usize) -> (r: Choice)
    requires
        lhs.stored <= BITMAP_BYTES,
        lhs.runs <= MAX_RUNS,
        lhs.typ == CT_ARRAY ==> lhs.card <= ARRAY_MAX_SIZE,
    ensures
        r.cap <= BITMAP_BYTES,
        r.runs <= MAX_RUNS,
        r == diff_choice(*lhs, in_rhs, splittable, run_bound as int),
        r.typ == CT_ARRAY ==> lhs.card <= ARRAY_MAX_SIZE,
{
    let verbatim: Choice = Choice { typ: lhs.typ, cap: lhs.stored, runs: lhs.runs };
    if !in_rhs {
        return verbatim;
    }
    let shrunk: u32 = diff_cap(lhs.card, lhs.stored, true);
    let (typ, runs): (u8, u16) = if lhs.typ == CT_RUN && lhs.card as usize > ARRAY_MAX_SIZE
        && splittable && run_bound <= MAX_RUNS {
        (CT_RUN, run_bound as u16)
    } else if lhs.card as usize <= ARRAY_MAX_SIZE {
        (CT_ARRAY, 0)
    } else {
        (CT_BITMAP, 0)
    };
    if verbatim.cap >= shrunk {
        verbatim
    } else {
        Choice { typ, cap: shrunk, runs }
    }
}

/// A union that promotes at a key still does with more values or more inputs there: the
/// break-even falls with the fan-in. A lone container never does.
pub proof fn law_promotes(n: int, m: int, a: int, b: int)
    requires
        0 <= n <= m,
        0 <= a <= b,
        promotes(n, a),
    ensures
        promotes(m, b),
        n >= 2,
{
    if m <= MAX_UNION_FANIN {
        let (x, y) = (85 * n * (n + 1) - 86 * n - 170, 85 * m * (m + 1) - 86 * m - 170);
        assert(x > 0 && y > 0) by (nonlinear_arith)
            requires
                2 <= n <= m,
                x == 85 * n * (n + 1) - 86 * n - 170,
                y == 85 * m * (m + 1) - 86 * m - 170,
        ;
        // The cost per input only grows with the inputs.
        assert(x * m <= y * n) by (nonlinear_arith)
            requires
                2 <= n <= m,
                x == 85 * n * (n + 1) - 86 * n - 170,
                y == 85 * m * (m + 1) - 86 * m - 170,
        ;
        assert(b * y * n > 40_000 * m * n) by (nonlinear_arith)
            requires
                0 <= a <= b,
                0 < x,
                0 < y,
                2 <= n <= m,
                a * x > 40_000 * n,
                x * m <= y * n,
        ;
        assert(b * y > 40_000 * m) by (nonlinear_arith)
            requires
                b * y * n > 40_000 * m * n,
                2 <= n,
        ;
        assert(promotes(m, b));
    }
}

/// The break-even of two, three and four inputs lies past 476, 202 and 134 values.
pub proof fn law_break_even(a: int)
    ensures
        promotes(2, a) <==> a > 476,
        promotes(3, a) <==> a > 202,
        promotes(4, a) <==> a > 134,
        !promotes(0, a),
        !promotes(1, a),
{
    assert(a * (85 * 2 * (2 + 1) - 86 * 2 - 170) == a * 168) by (nonlinear_arith);
    assert(a * (85 * 3 * (3 + 1) - 86 * 3 - 170) == a * 592) by (nonlinear_arith);
    assert(a * (85 * 4 * (4 + 1) - 86 * 4 - 170) == a * 1186) by (nonlinear_arith);
}

/// Inside a tree a union promotes no sooner than a flat one, never with three inputs or
/// fewer, and with more values or more inputs it still does.
pub proof fn law_promotes_interior(n: int, m: int, a: int, b: int)
    requires
        0 <= n <= m,
        0 <= a <= b,
        promotes_interior(n, a),
    ensures
        promotes_interior(m, b),
        n > 3,
        promotes(n, a),
{
    assert(b * (m - 3) >= a * (n - 3)) by (nonlinear_arith)
        requires
            0 <= a <= b,
            4 <= n <= m,
    ;
    if n <= MAX_UNION_FANIN {
        let x = 85 * n * (n + 1) - 86 * n - 170;
        assert(a * x > 40_000 * n) by (nonlinear_arith)
            requires
                4 <= n,
                0 <= a,
                a * (n - 3) > 1000,
                x == 85 * n * (n + 1) - 86 * n - 170,
        ;
    }
}

/// The slot of a union holds a lone copy of every input, the merged values as an array, and
/// the runs of all inputs side by side; one that need not is a bitmap's.
pub proof fn law_union_room(k: UnionKey, fanin: Fanin)
    requires
        k.max_single <= BITMAP_BYTES,
    ensures
        union_cap(k, fanin) == BITMAP_BYTES || union_cap(k, fanin) >= k.max_single && union_cap(
            k,
            fanin,
        ) >= 2 * k.sum_card && union_cap(k, fanin) >= 2 + 4 * k.total_runs,
        k.any_bitmap ==> union_cap(k, fanin) == BITMAP_BYTES,
        k.sum_card > ARRAY_MAX_SIZE ==> union_cap(k, fanin) == BITMAP_BYTES,
        union_form(k, fanin) == CT_ARRAY ==> k.sum_card <= ARRAY_MAX_SIZE && !k.any_bitmap,
        union_form(k, fanin) == CT_RUN ==> k.all_run && k.total_runs <= MAX_RUNS,
{
}

/// What a key can shrink to fits in two bytes for each value, and never needs more than 8192.
pub proof fn law_shrink(card: int, part: int)
    requires
        0 <= part <= card,
    ensures
        shrink_cap_spec(part) <= shrink_cap_spec(card) <= 8192,
        shrink_cap_spec(card) <= 2 * card,
        card <= 4096 ==> shrink_cap_spec(card) == 2 * card,
        card >= 4096 ==> shrink_cap_spec(card) == 8192,
{
}

/// The break-even of `n` inputs lies between 40000 divided by `85 * n - 1` and by
/// `85 * n - 86` values.
pub proof fn law_break_even_near(n: int, a: int)
    requires
        2 <= n <= 1048576,
        a >= 0,
    ensures
        a * (85 * n - 1) <= 40_000 ==> !promotes(n, a),
        a * (85 * n - 86) > 40_000 ==> promotes(n, a),
{
    let x = 85 * n * (n + 1) - 86 * n - 170;
    if a * (85 * n - 1) <= 40_000 {
        assert(a * x <= a * (85 * n - 1) * n) by (nonlinear_arith)
            requires
                2 <= n,
                0 <= a,
                x == 85 * n * (n + 1) - 86 * n - 170,
        ;
        assert(a * (85 * n - 1) * n <= 40_000 * n) by (nonlinear_arith)
            requires
                2 <= n,
                a * (85 * n - 1) <= 40_000,
        ;
    }
    if a * (85 * n - 86) > 40_000 {
        assert(a * x >= a * (85 * n - 86) * n) by (nonlinear_arith)
            requires
                2 <= n,
                0 <= a,
                x == 85 * n * (n + 1) - 86 * n - 170,
        ;
        assert(a * (85 * n - 86) * n > 40_000 * n) by (nonlinear_arith)
            requires
                2 <= n,
                a * (85 * n - 86) > 40_000,
        ;
    }
}

/// Inside a tree the break-even of four inputs lies past 1000 values, of five past 500, and
/// of any more past 1000 divided by the inputs but three.
pub proof fn law_break_even_interior(n: int, a: int)
    requires
        n >= 4,
        a >= 0,
    ensures
        promotes_interior(4, a) <==> a > 1000,
        promotes_interior(5, a) <==> a > 500,
        promotes_interior(n, a) <==> a > 1000int / (n - 3),
{
    let (q, r) = (1000int / (n - 3), 1000int % (n - 3));
    vstd::arithmetic::div_mod::lemma_fundamental_div_mod(1000, n - 3);
    assert(0 <= r < n - 3);
    if a > q {
        assert(a * (n - 3) > 1000) by (nonlinear_arith)
            requires
                a >= q + 1,
                1000 == (n - 3) * q + r,
                r < n - 3,
                n >= 4,
        ;
    } else {
        assert(a * (n - 3) <= 1000) by (nonlinear_arith)
            requires
                a <= q,
                1000 == (n - 3) * q + r,
                0 <= r,
                n >= 4,
        ;
    }
}

/// The slot of a difference inside a tree holds the left-hand container as it is, and if a
/// subtrahend may touch it whatever it shrinks to. One that none touches stays as it is, and
/// runs come only of runs.
pub proof fn law_diff_room(lhs: DiffLhs, in_rhs: bool, splittable: bool, run_bound: int)
    requires
        lhs.stored <= BITMAP_BYTES,
        lhs.typ == CT_ARRAY ==> lhs.card <= ARRAY_MAX_SIZE,
    ensures
        ({
            let c = diff_choice(lhs, in_rhs, splittable, run_bound);
            let shrunk = if lhs.card <= 4096 {
                2 * lhs.card
            } else {
                8192
            };
            &&& c.cap >= lhs.stored
            &&& in_rhs ==> c.cap >= shrunk
            &&& c.cap == lhs.stored || in_rhs && c.cap == shrunk
            &&& !in_rhs ==> c.typ == lhs.typ && c.runs == lhs.runs
            &&& c.typ == CT_RUN ==> lhs.typ == CT_RUN
            &&& c.typ == CT_ARRAY ==> lhs.card <= 4096
            &&& c.cap > lhs.stored && lhs.card > 4096 ==> (c.typ == CT_RUN <==> lhs.typ == CT_RUN
                && splittable && run_bound <= 2047)
        }),
{
}

} // verus!
