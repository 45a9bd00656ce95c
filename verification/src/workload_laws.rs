//! What the workloads are for: how their values are spread, and which containers they become.
use vstd::prelude::*;

use crate::builder::run_starts;
use crate::canon::lemma_apart_count;
use crate::container::{lemma_runs_set_len, runs_card, runs_set, Run};
use crate::model::{hi, join, lemma_asc16_len, lemma_join, lemma_set16, lemma_split, lo, under};
use crate::run::apart;
use crate::workload::{
    block_ranges, covered, draw, even_ranges, long_ranges, low, mix, next_state, ranges_set, run_stride,
    scatter_set, scattered, shuffled, state_after, step_value, steps_set, swapped, whole, Window,
};

verus! {

// --- random containers --------------------------------------------------------------------

/// A shifted draw is the draw moved by the phase, around the end of the container; without a
/// phase it is the low half of the draw.
pub proof fn law_phase(x: u64, phase: u32)
    ensures
        low(x, whole(0)) == x % 65536,
        low(x, whole(phase)) == (low(x, whole(0)) + phase) % 65536,
{
    assert((x as u32) as u64 == x % 0x1_0000_0000) by (bit_vector);
    let y = x as u32;
    assert(y.wrapping_add(phase) as int == (y + phase) % 0x1_0000_0000);
    assert(y.wrapping_add(0) == y);
}

/// A draw stays in its window.
pub proof fn law_window(x: u64, w: Window)
    requires
        0 < w.span,
        w.from + w.span <= 65536,
    ensures
        w.from <= low(x, w) < w.from + w.span,
{
}

/// A scatter takes `per_key` draws for each of its keys, one key after the other, and holds
/// the value of each of them and no other. So it has no key but those, no more than `per_key`
/// values under any, and one at least under each.
pub proof fn law_scatter(st: u64, k0: int, keys: int, per_key: int, w: Window)
    requires
        0 <= k0,
        0 <= keys,
        k0 + keys <= 65536,
        0 <= per_key,
        0 < w.span,
        w.from + w.span <= 65536,
    ensures
        forall|k: int, d: int|
            0 <= k < keys && 0 <= d < per_key ==> #[trigger] scatter_set(
                st,
                k0,
                keys,
                per_key,
                w,
            ).contains(#[trigger] drawn(st, k0, per_key, w, k, d)),
        forall|v: u32| #[trigger]
            scatter_set(st, k0, keys, per_key, w).contains(v) ==> {
                &&& k0 <= hi(v) < k0 + keys
                &&& w.from <= lo(v) < w.from + w.span
                &&& exists|d: int|
                    0 <= d < per_key && v == #[trigger] drawn(st, k0, per_key, w, hi(v) - k0, d)
            },
        forall|key: u16| #[trigger]
            under(scatter_set(st, k0, keys, per_key, w), key).len() <= per_key,
        forall|key: u16|
            k0 <= key < k0 + keys && per_key > 0 ==> #[trigger] under(
                scatter_set(st, k0, keys, per_key, w),
                key,
            ).len() > 0,
        forall|key: u16|
            !(k0 <= key < k0 + keys) ==> #[trigger] under(
                scatter_set(st, k0, keys, per_key, w),
                key,
            ).len() == 0,
{
    let set = scatter_set(st, k0, keys, per_key, w);
    assert forall|k: int, d: int| 0 <= k < keys && 0 <= d < per_key implies #[trigger] set.contains(
        #[trigger] drawn(st, k0, per_key, w, k, d),
    ) by {
        lemma_cell(k, d, keys, per_key);
        assert(drawn(st, k0, per_key, w, k, d) == scattered(st, k0, per_key, w, k * per_key + d));
    }
    assert forall|v: u32| #[trigger] set.contains(v) implies {
        &&& k0 <= hi(v) < k0 + keys
        &&& w.from <= lo(v) < w.from + w.span
        &&& exists|d: int|
            0 <= d < per_key && v == #[trigger] drawn(st, k0, per_key, w, hi(v) - k0, d)
    } by {
        let j = choose|j: int|
            0 <= j < keys * per_key && v == #[trigger] scattered(st, k0, per_key, w, j);
        lemma_uncell(j, keys, per_key);
        let (k, d) = (j / per_key, j % per_key);
        lemma_join((k0 + k) as u16, low(draw(st, j as nat), w));
        assert(v == drawn(st, k0, per_key, w, hi(v) - k0, d));
    }
    assert forall|key: u16| #[trigger] under(set, key).len() <= per_key && (k0 <= key < k0 + keys
        && per_key > 0 ==> under(set, key).len() > 0) && (!(k0 <= key < k0 + keys) ==> under(
        set,
        key,
    ).len() == 0) by {
        let u = under(set, key);
        let f = Seq::new(per_key as nat, |d: int| low(draw(st, ((key - k0) * per_key + d) as nat), w));
        lemma_set16(u);
        lemma_set16(f.to_set());
        assert forall|l: u16| u.contains(l) implies f.to_set().contains(l) by {
            let v = join(key, l);
            lemma_join(key, l);
            assert(set.contains(v));
            let d = choose|d: int|
                0 <= d < per_key && v == #[trigger] drawn(st, k0, per_key, w, hi(v) - k0, d);
            lemma_join(key, low(draw(st, ((key - k0) * per_key + d) as nat), w));
            assert(f[d] == l);
        }
        vstd::set_lib::lemma_len_subset(u, f.to_set());
        f.lemma_cardinality_of_set();
        if k0 <= key < k0 + keys && per_key > 0 {
            let l = low(draw(st, ((key - k0) * per_key + 0) as nat), w);
            assert(set.contains(drawn(st, k0, per_key, w, key - k0, 0)));
            assert(u.contains(l));
        }
        if !(k0 <= key < k0 + keys) {
            assert forall|l: u16| !u.contains(l) by {
                if u.contains(l) {
                    lemma_join(key, l);
                    assert(set.contains(join(key, l)));
                }
            }
            assert(u =~= Set::<u16>::empty());
        }
    }
}

/// The value of draw `d` for key `k` of a scatter.
pub open spec fn drawn(st: u64, k0: int, per_key: int, w: Window, k: int, d: int) -> u32 {
    join((k0 + k) as u16, low(draw(st, (k * per_key + d) as nat), w))
}

proof fn lemma_cell(k: int, d: int, keys: int, per_key: int)
    requires
        0 <= k < keys,
        0 <= d < per_key,
    ensures
        0 <= k * per_key + d < keys * per_key,
        (k * per_key + d) / per_key == k,
{
    assert(0 <= k * per_key + d < keys * per_key) by (nonlinear_arith)
        requires
            0 <= k < keys,
            0 <= d < per_key,
    ;
    vstd::arithmetic::div_mod::lemma_fundamental_div_mod_converse(k * per_key + d, per_key, k, d);
}

proof fn lemma_uncell(j: int, keys: int, per_key: int)
    requires
        0 <= j < keys * per_key,
        0 <= keys,
        0 <= per_key,
    ensures
        0 <= j / per_key < keys,
        0 <= j % per_key < per_key,
        j == (j / per_key) * per_key + j % per_key,
{
    assert(per_key > 0) by (nonlinear_arith)
        requires
            0 <= j < keys * per_key,
            0 <= per_key,
    ;
    vstd::arithmetic::div_mod::lemma_fundamental_div_mod(j, per_key);
    assert(0 <= j / per_key < keys && j == (j / per_key) * per_key + j % per_key && 0 <= j % per_key
        < per_key) by (nonlinear_arith)
        requires
            0 <= j < keys * per_key,
            0 < per_key,
            j == per_key * (j / per_key) + j % per_key,
            0 <= j % per_key < per_key,
    ;
}

// --- ranges -------------------------------------------------------------------------------

/// Ranges that are not empty, in order, and touch neither each other nor the end of a
/// container.
pub open spec fn spaced(ranges: Seq<(int, int)>) -> bool {
    &&& forall|i: int|
        0 <= i < ranges.len() ==> 0 <= (#[trigger] ranges[i]).0 < ranges[i].1 <= 65536
    &&& forall|i: int, j: int|
        0 <= i < j < ranges.len() ==> (#[trigger] ranges[i]).1 < (#[trigger] ranges[j]).0
}

/// Under each of its keys, a set of spaced ranges has one maximal run for each of them, and
/// as many values as they are long.
pub proof fn law_ranges(k0: int, k1: int, ranges: Seq<(int, int)>, len: int)
    requires
        0 <= k0 <= k1 <= 65536,
        spaced(ranges),
        forall|i: int| 0 <= i < ranges.len() ==> (#[trigger] ranges[i]).1 - ranges[i].0 == len,
    ensures
        forall|key: u16|
            k0 <= key < k1 ==> run_starts(#[trigger] under(ranges_set(k0, k1, ranges), key)).len()
                == ranges.len() && under(ranges_set(k0, k1, ranges), key).len() == ranges.len() * len,
        forall|key: u16|
            !(k0 <= key < k1) ==> #[trigger] under(ranges_set(k0, k1, ranges), key).len() == 0,
{
    let rs = Seq::new(
        ranges.len(),
        |i: int| Run { start: ranges[i].0 as u16, len: (ranges[i].1 - ranges[i].0 - 1) as u16 },
    );
    assert forall|i: int| 0 <= i < rs.len() implies (#[trigger] rs[i]).wf() && rs[i].start
        == ranges[i].0 && rs[i].last() == ranges[i].1 - 1 && rs[i].len + 1 == len by {
        assert(0 <= ranges[i].0 < ranges[i].1 <= 65536);
    }
    assert forall|i: int, j: int| 0 <= i < j < rs.len() implies (#[trigger] rs[i]).last() + 1 < (
    #[trigger] rs[j]).start by {
        assert(ranges[i].1 < ranges[j].0);
    }
    lemma_apart_count(rs);
    lemma_runs_set_len(rs);
    lemma_equal_runs(rs, rs.len() as int, len);
    assert forall|key: u16| k0 <= key < k1 implies run_starts(
        #[trigger] under(ranges_set(k0, k1, ranges), key),
    ).len() == ranges.len() && under(ranges_set(k0, k1, ranges), key).len() == ranges.len() * len by {
        let u = under(ranges_set(k0, k1, ranges), key);
        assert forall|l: u16| u.contains(l) == runs_set(rs).contains(l) by {
            lemma_join(key, l);
            if covered(ranges, l) {
                let q = choose|q: int|
                    0 <= q < ranges.len() && (#[trigger] ranges[q]).0 <= l < ranges[q].1;
                assert(rs[q].has(l));
            }
            if runs_set(rs).contains(l) {
                let q = choose|q: int| 0 <= q < rs.len() && (#[trigger] rs[q]).has(l);
                assert(ranges[q].0 <= l < ranges[q].1);
            }
        }
        assert(u =~= runs_set(rs));
    }
    assert forall|key: u16| !(k0 <= key < k1) implies #[trigger] under(
        ranges_set(k0, k1, ranges),
        key,
    ).len() == 0 by {
        let u = under(ranges_set(k0, k1, ranges), key);
        assert forall|l: u16| !u.contains(l) by {
            lemma_join(key, l);
        }
        assert(u =~= Set::<u16>::empty());
    }
}

proof fn lemma_equal_runs(rs: Seq<Run>, k: int, len: int)
    requires
        0 <= k <= rs.len(),
        forall|i: int| 0 <= i < rs.len() ==> (#[trigger] rs[i]).len + 1 == len,
    ensures
        runs_card(rs, k) == k * len,
    decreases k,
{
    if k > 0 {
        lemma_equal_runs(rs, k - 1, len);
        assert(rs[k - 1].len + 1 == len);
        assert((k - 1) * len + len == k * len) by (nonlinear_arith);
    } else {
        assert(0 * len == 0) by (nonlinear_arith);
    }
}

/// A low half is in a block of a run-heavy container exactly where it is among the first
/// `block` values of its stretch of `block + gap`, and the block fits the container.
pub proof fn law_blocks(keys: int, block: int, gap: int, v: u32)
    requires
        0 <= keys <= 65536,
        0 < block <= 65536,
        0 <= gap,
    ensures
        ranges_set(0, keys, block_ranges(block, gap)).contains(v) <==> {
            let at = lo(v) as int % (block + gap);
            hi(v) < keys && at < block && lo(v) - at + block <= 65536
        },
{
    let (l, st) = (lo(v) as int, block + gap);
    let ranges = block_ranges(block, gap);
    let (q, at) = (l / st, l % st);
    vstd::arithmetic::div_mod::lemma_fundamental_div_mod(l, st);
    assert(q * st == st * q) by (nonlinear_arith);
    assert(0 <= q) by (nonlinear_arith)
        requires
            q == l / st,
            0 <= l,
            0 < st,
    ;
    let d = 65536 - block;
    vstd::arithmetic::div_mod::lemma_fundamental_div_mod(d, st);
    assert(q * st <= d <==> q <= d / st) by (nonlinear_arith)
        requires
            d == st * (d / st) + d % st,
            0 <= d % st < st,
            0 < st,
    ;
    if covered(ranges, lo(v)) {
        let p = choose|p: int|
            0 <= p < ranges.len() && (#[trigger] ranges[p]).0 <= lo(v) < ranges[p].1;
        vstd::arithmetic::div_mod::lemma_fundamental_div_mod_converse(l, st, p, l - p * st);
        assert(p * st == st * p) by (nonlinear_arith);
        assert(p <= d / st);
    }
    if at < block && l - at + block <= 65536 {
        assert(ranges[q].0 == q * st);
        assert(ranges[q].0 <= lo(v) < ranges[q].1);
    }
}

/// The blocks of a run-heavy container with gaps are its maximal runs, as many as fit.
pub proof fn law_block_runs(keys: int, block: int, gap: int)
    requires
        0 <= keys <= 65536,
        0 < block <= 65536,
        0 < gap,
    ensures
        forall|key: u16|
            key < keys ==> run_starts(
                #[trigger] under(ranges_set(0, keys, block_ranges(block, gap)), key),
            ).len() == (65536 - block) / (block + gap) + 1,
        forall|key: u16|
            key < keys ==> #[trigger] under(ranges_set(0, keys, block_ranges(block, gap)), key).len()
                == ((65536 - block) / (block + gap) + 1) * block,
{
    let ranges = block_ranges(block, gap);
    let (st, d) = (block + gap, 65536 - block);
    vstd::arithmetic::div_mod::lemma_fundamental_div_mod(d, st);
    assert(0 <= d / st) by (nonlinear_arith)
        requires
            0 <= d,
            0 < st,
    ;
    assert forall|i: int| 0 <= i < ranges.len() implies 0 <= (#[trigger] ranges[i]).0 < ranges[i].1
        <= 65536 && ranges[i].1 - ranges[i].0 == block by {
        assert(0 <= i * st <= d) by (nonlinear_arith)
            requires
                0 <= i <= d / st,
                0 < st,
                d == st * (d / st) + d % st,
                0 <= d % st,
        ;
    }
    assert forall|i: int, j: int| 0 <= i < j < ranges.len() implies (#[trigger] ranges[i]).1 < (
    #[trigger] ranges[j]).0 by {
        assert(i * st + st <= j * st) by (nonlinear_arith)
            requires
                i + 1 <= j,
                0 < st,
        ;
    }
    law_ranges(0, keys, ranges, block);
}

/// Evenly spaced runs stay apart: each container has exactly as many maximal runs as were
/// asked for, each half their distance long.
pub proof fn law_run_count(keys: int, nruns: int, phase: int)
    requires
        0 <= keys <= 65536,
        0 < nruns <= 32768,
        0 <= phase,
    ensures
        forall|key: u16|
            key < keys ==> run_starts(
                #[trigger] under(ranges_set(0, keys, even_ranges(nruns, phase)), key),
            ).len() == nruns,
        forall|key: u16|
            key < keys ==> #[trigger] under(ranges_set(0, keys, even_ranges(nruns, phase)), key).len()
                == nruns * ((65536int / nruns) / 2),
{
    let ranges = even_ranges(nruns, phase);
    let st = run_stride(nruns);
    vstd::arithmetic::div_mod::lemma_fundamental_div_mod(65536, nruns);
    assert(2 <= 65536int / nruns && nruns * (65536int / nruns) <= 65536) by (nonlinear_arith)
        requires
            0 < nruns <= 32768,
            65536 == nruns * (65536int / nruns) + 65536int % nruns,
            0 <= 65536int % nruns < nruns,
    ;
    assert(st == 65536int / nruns);
    let len = st / 2;
    let shift = phase % (st - len);
    assert(0 <= shift < st - len);
    assert forall|i: int| 0 <= i < ranges.len() implies 0 <= (#[trigger] ranges[i]).0 < ranges[i].1
        <= 65536 && ranges[i].1 - ranges[i].0 == len && ranges[i].0 == i * st + shift by {
        assert(0 <= i * st && i * st + st <= nruns * st) by (nonlinear_arith)
            requires
                0 <= i,
                i + 1 <= nruns,
                0 < st,
        ;
    }
    assert forall|i: int, j: int| 0 <= i < j < ranges.len() implies (#[trigger] ranges[i]).1 < (
    #[trigger] ranges[j]).0 by {
        assert(i * st + st <= j * st) by (nonlinear_arith)
            requires
                i + 1 <= j,
                0 < st,
        ;
        assert(ranges[i].0 == i * st + shift && ranges[j].0 == j * st + shift);
    }
    law_ranges(0, keys, ranges, len);
}

/// Long ranges that fit between each other, and before the end of their container, are its
/// maximal runs: one for each, of `rlen` values and one.
pub proof fn law_long_ranges(keys: int, nranges: int, rlen: int, phase: int)
    requires
        0 <= keys <= 65536,
        0 < nranges,
        0 <= rlen,
        0 <= phase,
        rlen + 1 < 65536int / nranges,
        phase + (nranges - 1) * (65536int / nranges) + rlen < 65536,
    ensures
        forall|key: u16|
            key < keys ==> run_starts(
                #[trigger] under(ranges_set(0, keys, long_ranges(nranges, rlen, phase)), key),
            ).len() == nranges,
        forall|key: u16|
            key < keys ==> #[trigger] under(
                ranges_set(0, keys, long_ranges(nranges, rlen, phase)),
                key,
            ).len() == nranges * (rlen + 1),
        forall|key: u16, i: int, d: int|
            key < keys && 0 <= i < nranges && 0 <= d <= rlen ==> #[trigger] ranges_set(
                0,
                keys,
                long_ranges(nranges, rlen, phase),
            ).contains(#[trigger] ranged(key, nranges, phase, i, d)),
{
    let ranges = long_ranges(nranges, rlen, phase);
    let st = 65536int / nranges;
    assert forall|i: int| 0 <= i < ranges.len() implies (#[trigger] ranges[i]).0 == i * st + phase
        && ranges[i].1 == i * st + phase + rlen + 1 && 0 <= ranges[i].0 && ranges[i].1 <= 65536 by {
        assert(0 <= i * st <= (nranges - 1) * st) by (nonlinear_arith)
            requires
                0 <= i <= nranges - 1,
                0 < st,
        ;
        assert(i * (65536int / nranges) + phase < 65536);
    }
    assert forall|i: int, j: int| 0 <= i < j < ranges.len() implies (#[trigger] ranges[i]).1 < (
    #[trigger] ranges[j]).0 by {
        assert(i * st + st <= j * st) by (nonlinear_arith)
            requires
                i + 1 <= j,
                0 < st,
        ;
    }
    law_ranges(0, keys, ranges, rlen + 1);
    assert forall|key: u16, i: int, d: int|
        key < keys && 0 <= i < nranges && 0 <= d <= rlen implies #[trigger] ranges_set(
        0,
        keys,
        ranges,
    ).contains(#[trigger] ranged(key, nranges, phase, i, d)) by {
        let l = i * (65536int / nranges) + phase + d;
        assert(ranges[i].0 <= l < ranges[i].1);
        lemma_join(key, l as u16);
        assert(covered(ranges, l as u16));
    }
}

/// Value `d` of long range `i` under `key`.
pub open spec fn ranged(key: u16, nranges: int, phase: int, i: int, d: int) -> u32 {
    join(key, (i * (65536int / nranges) + phase + d) as u16)
}

/// Saturated containers hold every value of their keys and no other.
pub proof fn law_full(k0: int, k1: int, v: u32)
    ensures
        ranges_set(k0, k1, seq![(0int, 65536int)]).contains(v) <==> k0 <= hi(v) < k1,
{
    let ranges = seq![(0int, 65536int)];
    assert(ranges[0].0 <= lo(v) < ranges[0].1);
}

// --- steps --------------------------------------------------------------------------------

/// Evenly spaced values that stay in their container: under each of the keys from `k0` on
/// they are the values from `base` on whose distance is a multiple of the step, `count` in
/// all; no other key has any.
pub proof fn law_steps(keys: int, k0: int, base: int, step: int, count: int)
    requires
        0 <= k0,
        0 <= keys,
        k0 + keys <= 65536,
        0 < step,
        0 <= base,
        0 <= count,
        base + (count - 1) * step < 65536,
    ensures
        ({
            let set = steps_set(keys, k0 * 65536 + base, step, count);
            &&& forall|v: u32| #[trigger]
                set.contains(v) <==> k0 <= hi(v) < k0 + keys && base <= lo(v) && (lo(v) - base) % step
                    == 0 && (lo(v) - base) / step < count
            &&& forall|key: u16|
                k0 <= key < k0 + keys ==> #[trigger] under(set, key).len() == count
            &&& forall|key: u16|
                !(k0 <= key < k0 + keys) ==> #[trigger] under(set, key).len() == 0
        }),
{
    let set = steps_set(keys, k0 * 65536 + base, step, count);
    assert forall|v: u32| #[trigger] set.contains(v) <==> k0 <= hi(v) < k0 + keys && base <= lo(v) && (lo(
        v,
    ) - base) % step == 0 && (lo(v) - base) / step < count by {
        lemma_split(v);
        if set.contains(v) {
            let (k, j) = choose|k: int, j: int|
                0 <= k < keys && 0 <= j < count && v == #[trigger] step_value(
                    k,
                    k0 * 65536 + base,
                    step,
                    j,
                );
            assert(0 <= j * step <= (count - 1) * step) by (nonlinear_arith)
                requires
                    0 <= j <= count - 1,
                    0 < step,
            ;
            assert(v == (k0 + k) * 65536 + (base + j * step));
            assert(hi(v) == k0 + k && lo(v) == base + j * step);
            assert(j * step == step * j) by (nonlinear_arith);
            vstd::arithmetic::div_mod::lemma_fundamental_div_mod_converse(lo(v) - base, step, j, 0);
        }
        if k0 <= hi(v) < k0 + keys && base <= lo(v) && (lo(v) - base) % step == 0 && (lo(v) - base)
            / step < count {
            let (k, j) = (hi(v) - k0, (lo(v) - base) / step);
            vstd::arithmetic::div_mod::lemma_fundamental_div_mod(lo(v) - base, step);
            assert(j * step == step * j) by (nonlinear_arith);
            assert(0 <= j) by (nonlinear_arith)
                requires
                    j == (lo(v) - base) / step,
                    base <= lo(v),
                    0 < step,
            ;
            assert(v == step_value(k, k0 * 65536 + base, step, j));
        }
    }
    let ls = Seq::new(count as nat, |j: int| (base + j * step) as u16);
    assert forall|i: int, j: int| 0 <= i < j < ls.len() implies ls[i] < ls[j] by {
        lemma_step(base, step, count, i);
        lemma_step(base, step, count, j);
        assert(i * step < j * step) by (nonlinear_arith)
            requires
                i < j,
                0 < step,
        ;
    }
    lemma_asc16_len(ls);
    assert forall|key: u16| (k0 <= key < k0 + keys ==> #[trigger] under(set, key).len() == count) && (!(
    k0 <= key < k0 + keys) ==> under(set, key).len() == 0) by {
        let u = under(set, key);
        if k0 <= key < k0 + keys {
            assert forall|l: u16| u.contains(l) == ls.to_set().contains(l) by {
                lemma_join(key, l);
                let v = join(key, l);
                if u.contains(l) {
                    assert(set.contains(v));
                    let j = (l - base) / step;
                    vstd::arithmetic::div_mod::lemma_fundamental_div_mod(l - base, step);
                    assert(j * step == step * j) by (nonlinear_arith);
                    assert(0 <= j) by (nonlinear_arith)
                        requires
                            j == (l - base) / step,
                            base <= l,
                            0 < step,
                    ;
                    assert(ls[j] == l);
                }
                if ls.contains(l) {
                    let j = choose|j: int| 0 <= j < ls.len() && ls[j] == l;
                    lemma_step(base, step, count, j);
                    assert(j * step == step * j) by (nonlinear_arith);
                    vstd::arithmetic::div_mod::lemma_fundamental_div_mod_converse(l - base, step, j, 0);
                    assert(set.contains(v));
                }
            }
            assert(u =~= ls.to_set());
        } else {
            assert forall|l: u16| !u.contains(l) by {
                lemma_join(key, l);
                if u.contains(l) {
                    assert(set.contains(join(key, l)));
                }
            }
            assert(u =~= Set::<u16>::empty());
        }
    }
}

proof fn lemma_step(base: int, step: int, count: int, j: int)
    requires
        0 < step,
        0 <= base,
        0 <= j < count,
        base + (count - 1) * step < 65536,
    ensures
        0 <= j * step,
        base + j * step < 65536,
{
    assert(0 <= j * step <= (count - 1) * step) by (nonlinear_arith)
        requires
            0 <= j <= count - 1,
            0 < step,
    ;
}

// --- shuffles -----------------------------------------------------------------------------

/// A shuffle up to `i` keeps the length and every entry past `i`. Entry `i` becomes the one
/// that the first draw says, at or below it.
pub proof fn law_shuffled(s: u64, v: Seq<u16>, i: int)
    requires
        0 < i < v.len(),
        i < usize::MAX,
    ensures
        shuffled(s, v, i).len() == v.len(),
        shuffled(s, v, i)[i] == v[(draw(s, 0) as usize) as int % (i + 1)],
        forall|k: int| i < k < v.len() ==> #[trigger] shuffled(s, v, i)[k] == v[k],
{
    reveal_with_fuel(state_after, 2);
    let j = (mix(next_state(s)) as usize % (i + 1) as usize) as int;
    let w = swapped(v, i, j);
    lemma_untouched(next_state(s), w, i - 1);
    assert(shuffled(next_state(s), w, i - 1)[i] == w[i]);
    assert forall|k: int| i < k < v.len() implies #[trigger] shuffled(s, v, i)[k] == v[k] by {
        assert(shuffled(next_state(s), w, i - 1)[k] == w[k]);
    }
}

proof fn lemma_untouched(s: u64, v: Seq<u16>, i: int)
    requires
        i < v.len(),
        i < usize::MAX,
    ensures
        shuffled(s, v, i).len() == v.len(),
        forall|k: int| i < k < v.len() ==> #[trigger] shuffled(s, v, i)[k] == v[k],
    decreases i,
{
    if i > 0 {
        let j = (mix(next_state(s)) as usize % (i + 1) as usize) as int;
        let w = swapped(v, i, j);
        lemma_untouched(next_state(s), w, i - 1);
        assert forall|k: int| i < k < v.len() implies #[trigger] shuffled(s, v, i)[k] == v[k] by {
            assert(shuffled(next_state(s), w, i - 1)[k] == w[k]);
        }
    }
}

} // verus!
