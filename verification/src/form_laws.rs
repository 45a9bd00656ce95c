//! What the forms and the room of an op's result follow from: how many values there are under
//! a key, and what the inputs are made of there.
use vstd::prelude::*;

use crate::accum::bitmap_form;
use crate::decide::{promotes, promotes_interior, union_cap, union_form, Fanin, UnionKey};
use crate::difference::{diff_form, lhs_runs, pieces, rhs_splits};
use crate::format::{CT_ARRAY, CT_BITMAP, CT_RUN};
use crate::intersect::{and_form_at, runs_of};
use crate::model::{join, lemma_set16, sum_to, under};
use crate::plan::{
    difference_of, diff_slot_cap, intersection_of, or_slot_cap, or_stats, touched, union_of,
};
use crate::shape::{meta_of, or_meta, shape_stats, spans, Shape};
use crate::source::Inputs;
use crate::union::{or_double, or_form, or_runs, union_upto};

verus! {

// --- what the inputs have under a key -----------------------------------------------------

/// Input `i` has values under `key`.
pub open spec fn owns<I: Inputs + ?Sized>(inputs: &I, i: int, key: u16) -> bool {
    under(inputs.set_at(i), key).len() > 0
}

/// Values that the first `n` inputs have under `key`, counted once for each.
pub open spec fn values_in<I: Inputs + ?Sized>(inputs: &I, key: u16, n: int) -> int
    decreases n,
{
    if n <= 0 {
        0
    } else {
        values_in(inputs, key, n - 1) + under(inputs.set_at(n - 1), key).len()
    }
}

/// Runs that the first `n` inputs have under `key`, where each of them is runs there: four
/// bytes each behind a count of two.
pub open spec fn runs_in<I: Inputs + ?Sized>(inputs: &I, key: u16, n: int) -> int
    decreases n,
{
    if n <= 0 {
        0
    } else {
        runs_in(inputs, key, n - 1) + if owns(inputs, n - 1, key) {
            (inputs.stored_at(n - 1, key) - 2) / 4
        } else {
            0
        }
    }
}

/// What is known of the inputs of a union under a key: how many have it, whether one of them
/// is a bitmap there or all of them are runs, and the values that they have together.
pub proof fn law_or_stats<I: Inputs + ?Sized>(inputs: &I, key: u16, n: int)
    requires
        0 <= n <= 0xFFFF,
    ensures
        ({
            let k = or_stats(inputs, key, n);
            &&& k.any_bitmap <==> exists|i: int|
                0 <= i < n && #[trigger] owns(inputs, i, key) && inputs.form_at(i, key) == CT_BITMAP
            &&& k.all_run <==> forall|i: int|
                0 <= i < n && #[trigger] owns(inputs, i, key) ==> inputs.form_at(i, key) == CT_RUN
            &&& k.n <= n
            &&& k.n == 0 <==> forall|i: int| 0 <= i < n ==> !#[trigger] owns(inputs, i, key)
            &&& k.sum_card == values_in(inputs, key, n)
            &&& under(union_upto(inputs, n), key).len() <= k.sum_card <= 65536 * n
        }),
    decreases n,
{
    let u = under(union_upto(inputs, n), key);
    lemma_set16(u);
    if n > 0 {
        law_or_stats(inputs, key, n - 1);
        let (k, j) = (or_stats(inputs, key, n), or_stats(inputs, key, n - 1));
        let (w, x) = (under(union_upto(inputs, n - 1), key), under(inputs.set_at(n - 1), key));
        lemma_set16(w);
        lemma_set16(x);
        assert(u =~= w.union(x)) by {
            assert forall|l: u16| u.contains(l) <==> w.contains(l) || x.contains(l) by {
                let v = join(key, l);
                if u.contains(l) {
                    let i = choose|i: int| 0 <= i < n && (#[trigger] inputs.set_at(i)).contains(v);
                    assert(inputs.set_at(i).contains(v));
                }
                if w.contains(l) {
                    let i = choose|i: int| 0 <= i < n - 1 && (#[trigger] inputs.set_at(i)).contains(v);
                    assert(inputs.set_at(i).contains(v));
                }
                if x.contains(l) {
                    assert(inputs.set_at(n - 1).contains(v));
                }
            }
        }
        vstd::set_lib::lemma_len_union(w, x);
        assert(owns(inputs, n - 1, key) <==> x.len() > 0);
        assert(k.any_bitmap <==> exists|i: int|
            0 <= i < n && #[trigger] owns(inputs, i, key) && inputs.form_at(i, key) == CT_BITMAP) by {
            if k.any_bitmap && j.any_bitmap {
                let i = choose|i: int|
                    0 <= i < n - 1 && #[trigger] owns(inputs, i, key) && inputs.form_at(i, key)
                        == CT_BITMAP;
                assert(owns(inputs, i, key));
            }
        }
    } else {
        assert(u =~= Set::<u16>::empty());
    }
}

// --- intersections ------------------------------------------------------------------------

proof fn lemma_and_len<I: Inputs + ?Sized>(inputs: &I, i: int, key: u16)
    requires
        0 <= i < inputs.count(),
    ensures
        under(intersection_of(inputs), key).len() <= under(inputs.set_at(i), key).len(),
{
    let (a, b) = (under(intersection_of(inputs), key), under(inputs.set_at(i), key));
    lemma_set16(a);
    lemma_set16(b);
    assert forall|l: u16| a.contains(l) implies b.contains(l) by {
        assert(inputs.set_at(i).contains(join(key, l)));
    }
    vstd::set_lib::lemma_len_subset(a, b);
}

/// Input `i` is runs of more than 4096 values under `key`.
pub open spec fn long_runs<I: Inputs + ?Sized>(inputs: &I, i: int, key: u16) -> bool {
    inputs.form_at(i, key) == CT_RUN && under(inputs.set_at(i), key).len() > 4096
}

/// The form of an intersection under a key. As an array it has 4096 values at most, and as a
/// bitmap, unless there are none, more than 2048. Where an input has 4096 or fewer it is an
/// array. Else it is runs exactly where every input is, with 2047 runs at most in all.
pub proof fn law_and_form<I: Inputs + ?Sized>(inputs: &I, key: u16)
    requires
        inputs.count() > 0,
    ensures
        ({
            let (f, n) = (and_form_at(inputs, key), under(intersection_of(inputs), key).len());
            &&& f == CT_ARRAY || f == CT_BITMAP || f == CT_RUN
            &&& f == CT_ARRAY ==> n <= 4096
            &&& f == CT_BITMAP ==> n == 0 || n > 2048
            &&& forall|i: int|
                0 <= i < inputs.count() && under(#[trigger] inputs.set_at(i), key).len() <= 4096
                    ==> f == CT_ARRAY
            &&& f == CT_RUN <==> runs_in(inputs, key, inputs.count() as int) <= 2047 && forall|i: int|
                0 <= i < inputs.count() ==> #[trigger] long_runs(inputs, i, key)
        }),
{
    let (n, f) = (inputs.count() as int, and_form_at(inputs, key));
    if exists|i: int| 0 <= i < n && under(#[trigger] inputs.set_at(i), key).len() <= 4096 {
        let i = choose|i: int| 0 <= i < n && under(#[trigger] inputs.set_at(i), key).len() <= 4096;
        lemma_and_len(inputs, i, key);
        assert(f == CT_ARRAY);
        assert(!long_runs(inputs, i, key));
    } else {
        assert(forall|i: int| 0 <= i < n ==> under(#[trigger] inputs.set_at(i), key).len() > 4096);
        lemma_runs_in(inputs, key, n);
        let all = forall|i: int| 0 <= i < n ==> #[trigger] inputs.form_at(i, key) == CT_RUN;
        assert(f == CT_RUN <==> runs_in(inputs, key, n) <= 2047 && all);
        if all {
            assert forall|i: int| 0 <= i < n implies #[trigger] long_runs(inputs, i, key) by {
                assert(inputs.form_at(i, key) == CT_RUN);
            }
        } else {
            let i = choose|i: int| 0 <= i < n && #[trigger] inputs.form_at(i, key) != CT_RUN;
            assert(!long_runs(inputs, i, key));
        }
    }
}

proof fn lemma_runs_in<I: Inputs + ?Sized>(inputs: &I, key: u16, n: int)
    requires
        0 <= n,
        forall|i: int| 0 <= i < n ==> under(#[trigger] inputs.set_at(i), key).len() > 4096,
    ensures
        sum_to(runs_of(inputs, key), n) == runs_in(inputs, key, n),
    decreases n,
{
    if n > 0 {
        lemma_runs_in(inputs, key, n - 1);
        assert(under(inputs.set_at(n - 1), key).len() > 4096);
    }
}

/// A bitmap finishes as an array for 1 to 2048 values.
pub proof fn law_bitmap_form(n: nat)
    ensures
        bitmap_form(n) == CT_ARRAY <==> 1 <= n <= 2048,
        bitmap_form(n) == CT_BITMAP <==> n == 0 || n > 2048,
{
}

// --- unions -------------------------------------------------------------------------------

/// Runs are coalesced only while every input that has the key is runs there.
proof fn lemma_or_runs<I: Inputs + ?Sized>(inputs: &I, key: u16, n: int)
    requires
        0 <= n <= 0xFFFF,
        or_runs(inputs, key, n) is Some,
    ensures
        forall|i: int| 0 <= i < n && #[trigger] owns(inputs, i, key) ==> inputs.form_at(i, key) == CT_RUN,
    decreases n,
{
    law_or_stats(inputs, key, n - 1);
    if or_stats(inputs, key, n - 1).n > 0 || !owns(inputs, n - 1, key) {
        lemma_or_runs(inputs, key, n - 1);
    }
}

/// No input takes less than the count of its runs under `key`, and all of them have 2047 runs
/// at most.
pub open spec fn few_stored<I: Inputs + ?Sized>(inputs: &I, key: u16) -> bool {
    &&& forall|i: int|
        0 <= i < inputs.count() && #[trigger] owns(inputs, i, key) ==> inputs.stored_at(i, key) >= 2
    &&& runs_in(inputs, key, inputs.count() as int) <= 2047
}

proof fn lemma_total_runs<I: Inputs + ?Sized>(inputs: &I, key: u16, n: int)
    requires
        0 <= n <= 0xFFFF,
        forall|i: int|
            0 <= i < n && #[trigger] owns(inputs, i, key) ==> inputs.stored_at(i, key) >= 2
                && inputs.form_at(i, key) == CT_RUN,
        runs_in(inputs, key, n) <= 2047,
    ensures
        or_stats(inputs, key, n).total_runs == runs_in(inputs, key, n),
        runs_in(inputs, key, n) >= 0,
    decreases n,
{
    if n > 0 {
        assert(owns(inputs, n - 1, key) ==> inputs.stored_at(n - 1, key) >= 2);
        lemma_total_runs(inputs, key, n - 1);
    }
}

/// The form of a union under a key. An array has fewer than 4096 values, and no input of it
/// is a bitmap there. It is runs only of runs. Where an input is a bitmap it is a bitmap, and
/// so it is where the inputs have more than 4096 values there between them, not all of them
/// runs. Where they all are, 2047 runs at most, it is runs, as long as it is folded key by key.
pub proof fn law_or_form<I: Inputs + ?Sized>(inputs: &I, key: u16)
    requires
        inputs.count() <= 0xFFFF,
    ensures
        ({
            let f = or_form(inputs, key, or_slot_cap(inputs, key), or_double(inputs));
            let (n, u) = (inputs.count() as int, under(union_of(inputs), key).len());
            let runs = forall|i: int|
                0 <= i < n && #[trigger] owns(inputs, i, key) ==> inputs.form_at(i, key) == CT_RUN;
            let bitmap = exists|i: int|
                0 <= i < n && #[trigger] owns(inputs, i, key) && inputs.form_at(i, key) == CT_BITMAP;
            &&& f == CT_ARRAY || f == CT_BITMAP || f == CT_RUN
            &&& f == CT_ARRAY ==> u < 4096 && !bitmap
            &&& f == CT_RUN ==> runs
            &&& bitmap ==> f == CT_BITMAP
            &&& values_in(inputs, key, n) > 4096 && !runs ==> f == CT_BITMAP
            &&& values_in(inputs, key, n) > 4096 ==> f != CT_ARRAY
            &&& values_in(inputs, key, n) > 4096 && runs && few_stored(inputs, key) && !or_double(inputs)
                ==> f == CT_RUN
        }),
{
    let n = inputs.count() as int;
    law_or_stats(inputs, key, n);
    assert(under(union_upto(inputs, n), key) =~= under(union_of(inputs), key)) by {
        assert forall|l: u16|
            under(union_upto(inputs, n), key).contains(l) <==> under(union_of(inputs), key).contains(l) by {
        }
    }
    if or_runs(inputs, key, n) is Some {
        lemma_or_runs(inputs, key, n);
    }
    let runs = forall|i: int|
        0 <= i < n && #[trigger] owns(inputs, i, key) ==> inputs.form_at(i, key) == CT_RUN;
    if runs && few_stored(inputs, key) {
        lemma_total_runs(inputs, key, n);
        if or_stats(inputs, key, n).n == 0 {
            lemma_no_values(inputs, key, n);
        }
    }
    if exists|i: int| 0 <= i < n && #[trigger] owns(inputs, i, key) && inputs.form_at(i, key) == CT_BITMAP {
        let i = choose|i: int|
            0 <= i < n && #[trigger] owns(inputs, i, key) && inputs.form_at(i, key) == CT_BITMAP;
        assert(owns(inputs, i, key));
    }
}

proof fn lemma_no_values<I: Inputs + ?Sized>(inputs: &I, key: u16, n: int)
    requires
        forall|i: int| 0 <= i < n ==> !#[trigger] owns(inputs, i, key),
    ensures
        values_in(inputs, key, n) == 0,
    decreases n,
{
    if n > 0 {
        assert(!owns(inputs, n - 1, key));
        lemma_no_values(inputs, key, n - 1);
    }
}

/// A flat union of two inputs is folded in a bitmap as soon as they have more than 476 values
/// under the key, and in an array's room up to that where neither is a bitmap; inside a tree
/// that number is 4096.
pub proof fn law_union_pair(k: UnionKey)
    requires
        k.n == 2,
        !k.any_bitmap,
        k.total_runs <= 2047,
        k.max_single < 8192,
    ensures
        union_form(k, Fanin::Flat) == CT_ARRAY <==> k.sum_card <= 476,
        union_form(k, Fanin::Interior) == CT_ARRAY <==> k.sum_card <= 4096,
        k.sum_card > 476 ==> union_cap(k, Fanin::Flat) == 8192,
        k.sum_card < 4096 && k.total_runs < 2047 ==> union_cap(k, Fanin::Interior) < 8192,
{
    crate::decide::law_break_even(k.sum_card as int);
    assert(!promotes_interior(2, k.sum_card as int));
    assert(promotes(2, k.sum_card as int) <==> k.sum_card > 476);
}

// --- differences --------------------------------------------------------------------------

/// The form of a difference under a key of the first input. An array has 4096 values at most,
/// and so has the first input there. Runs come only of runs. A container that no other input
/// touches stays as it is stored, or is an array. One that is touched is a bitmap only of more
/// than 2048 values, or of none. Runs that only runs and arrays split, into 2047 at most, stay
/// runs.
pub proof fn law_diff_form<I: Inputs + ?Sized>(inputs: &I, key: u16, typ: u8)
    requires
        inputs.count() > 0,
        diff_form(inputs, key, typ),
    ensures
        ({
            let (n, m) = (under(difference_of(inputs), key).len(), under(inputs.set_at(0), key).len());
            &&& typ == CT_ARRAY || typ == CT_BITMAP || typ == CT_RUN
            &&& n <= m
            &&& typ == CT_ARRAY ==> n <= 4096
            &&& typ == CT_RUN ==> inputs.form_at(0, key) == CT_RUN
            &&& touched(inputs, key) && m <= 4096 ==> typ == CT_ARRAY
            &&& touched(inputs, key) && typ == CT_BITMAP ==> m > 4096 && (n == 0 || n > 2048)
            &&& !touched(inputs, key) && m > 4096 ==> (typ == CT_RUN <==> inputs.form_at(0, key)
                == CT_RUN) && typ != CT_ARRAY
            &&& touched(inputs, key) && m > 4096 && inputs.form_at(0, key) == CT_RUN && rhs_splits(
                inputs,
                key,
                inputs.count() as int,
            ) && lhs_runs(inputs, key) + pieces(inputs, key, inputs.count() as int) <= 2047 ==> typ
                == CT_RUN
            &&& touched(inputs, key) ==> diff_slot_cap(inputs, key) == (if m <= 4096 {
                2 * m
            } else {
                8192
            })
        }),
{
    let (a, b) = (under(difference_of(inputs), key), under(inputs.set_at(0), key));
    lemma_set16(a);
    lemma_set16(b);
    assert forall|l: u16| a.contains(l) implies b.contains(l) by {
        assert(inputs.set_at(0).contains(join(key, l)));
    }
    vstd::set_lib::lemma_len_subset(a, b);
}

// --- inside a tree ------------------------------------------------------------------------

/// What a tree knows of the operands of a union under a key: whether one of them may be a
/// bitmap there, whether all are runs, and a lone copy of each fits.
pub proof fn law_shape_stats(inputs: Seq<Shape>, weights: Seq<usize>, n: int, key: u16)
    requires
        0 <= n <= inputs.len() == weights.len(),
    ensures
        ({
            let k = shape_stats(inputs, weights, n, key);
            &&& k.any_bitmap <==> exists|j: int|
                0 <= j < n && spans((#[trigger] inputs[j])@, key) && meta_of(inputs[j]@, key).typ
                    == CT_BITMAP
            &&& k.all_run <==> forall|j: int|
                0 <= j < n && spans((#[trigger] inputs[j])@, key) ==> meta_of(inputs[j]@, key).typ
                    == CT_RUN
            &&& forall|j: int|
                0 <= j < n && spans((#[trigger] inputs[j])@, key) ==> meta_of(inputs[j]@, key).cap
                    <= k.max_single && meta_of(inputs[j]@, key).card <= k.sum_card && weights[j] <= k.n
        }),
    decreases n,
{
    if n > 0 {
        law_shape_stats(inputs, weights, n - 1, key);
        let (k, l) = (shape_stats(inputs, weights, n, key), shape_stats(inputs, weights, n - 1, key));
        assert(inputs[n - 1] == inputs[n - 1]);
        if k.any_bitmap && l.any_bitmap {
            let j = choose|j: int|
                0 <= j < n - 1 && spans((#[trigger] inputs[j])@, key) && meta_of(inputs[j]@, key).typ
                    == CT_BITMAP;
            assert(spans(inputs[j]@, key));
        }
    }
}

/// A union inside a tree of three operands at most is planned as an array as long as its
/// values fit one and no operand is a bitmap; of four it is a bitmap past 1000 values.
pub proof fn law_or_meta(k: UnionKey, key: u16)
    requires
        !k.any_bitmap,
        !k.all_run,
        k.total_runs <= 2047,
        k.max_single <= 8192,
    ensures
        or_meta(k, key).key == key,
        or_meta(k, key).card == k.sum_card,
        or_meta(k, key).runs == 0,
        k.n <= 3 ==> (or_meta(k, key).typ == CT_ARRAY <==> k.sum_card <= 4096),
        k.n == 4 ==> (or_meta(k, key).typ == CT_ARRAY <==> k.sum_card <= 1000),
        or_meta(k, key).typ == CT_BITMAP ==> or_meta(k, key).cap == 8192,
{
}

} // verus!
