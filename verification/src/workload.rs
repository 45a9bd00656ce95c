//! Deterministic workloads: value lists in the shapes that drive each container type and
//! fold path.
use vstd::prelude::*;

use crate::model::{asc16, asc32, hi, join, lemma_asc16_len, lemma_join, lemma_split, lo};

verus! {

// --- the random stream -----------------------------------------------------------------

/// Increment of the stream's state.
pub const GOLDEN: u64 = 0x9E37_79B9_7F4A_7C15;

/// The state after one draw.
pub open spec fn next_state(s: u64) -> u64 {
    s.wrapping_add(GOLDEN)
}

/// The output of a state.
#[verifier::opaque]
pub open spec fn mix(s: u64) -> u64 {
    let a = (s ^ (s >> 30)).wrapping_mul(0xBF58_476D_1CE4_E5B9);
    let b = (a ^ (a >> 27)).wrapping_mul(0x94D0_49BB_1331_11EB);
    b ^ (b >> 31)
}

/// The state after `k` draws.
pub open spec fn state_after(s: u64, k: nat) -> u64
    decreases k,
{
    if k == 0 {
        s
    } else {
        next_state(state_after(s, (k - 1) as nat))
    }
}

/// Draw `k`, the first being draw 0.
pub open spec fn draw(s: u64, k: nat) -> u64 {
    mix(state_after(s, k + 1))
}

/// Next output of the SplitMix64 stream with state `s`.
pub fn splitmix64(s: &mut u64) -> (r: u64)
    ensures
        *final(s) == next_state(*old(s)),
        r == mix(*final(s)),
{
    proof {
        reveal(mix);
    }
    *s = s.wrapping_add(GOLDEN);
    let s0: u64 = *s;
    let a: u64 = (s0 ^ (s0 >> 30)).wrapping_mul(0xBF58_476D_1CE4_E5B9);
    let b: u64 = (a ^ (a >> 27)).wrapping_mul(0x94D0_49BB_1331_11EB);
    b ^ (b >> 31)
}

/// The value with key `k` and low half `lo`.
pub fn at(k: u16, lo: u16) -> (r: u32)
    ensures
        r == join(k, lo),
{
    k as u32 * 65536 + lo as u32
}

// --- sorting --------------------------------------------------------------------------

/// Merge two sorted lists, each value once.
fn merge(a: &Vec<u32>, b: &Vec<u32>) -> (r: Vec<u32>)
    requires
        asc32(a@),
        asc32(b@),
    ensures
        asc32(r@),
        r@.to_set() == a@.to_set().union(b@.to_set()),
{
    let mut out: Vec<u32> = Vec::with_capacity(a.len());
    let mut i: usize = 0;
    let mut j: usize = 0;
    assert(out@.to_set() =~= a@.take(0).to_set().union(b@.take(0).to_set()));
    while i < a.len() || j < b.len()
        invariant
            asc32(a@),
            asc32(b@),
            i <= a.len(),
            j <= b.len(),
            asc32(out@),
            out@.to_set() == a@.take(i as int).to_set().union(b@.take(j as int).to_set()),
            i < a.len() ==> forall|k: int| 0 <= k < out.len() ==> #[trigger] out@[k] < a@[i as int],
            j < b.len() ==> forall|k: int| 0 <= k < out.len() ==> #[trigger] out@[k] < b@[j as int],
        decreases a.len() - i + b.len() - j,
    {
        let from_a: bool = i < a.len() && (j >= b.len() || a[i] <= b[j]);
        let from_b: bool = j < b.len() && (i >= a.len() || b[j] <= a[i]);
        let v: u32 = if from_a {
            a[i]
        } else {
            b[j]
        };
        let ghost (o0, i0, j0) = (out@, i as int, j as int);
        out.push(v);
        if from_a {
            i = i + 1;
        }
        if from_b {
            j = j + 1;
        }
        proof {
            lemma_push_set(o0, v);
            if from_a {
                assert(a@.take(i0 + 1) =~= a@.take(i0).push(v));
                lemma_push_set(a@.take(i0), v);
            }
            if from_b {
                assert(b@.take(j0 + 1) =~= b@.take(j0).push(v));
                lemma_push_set(b@.take(j0), v);
            }
            assert(out@.to_set() =~= a@.take(i as int).to_set().union(b@.take(j as int).to_set()));
        }
    }
    assert(a@.take(i as int) =~= a@);
    assert(b@.take(j as int) =~= b@);
    out
}

proof fn lemma_push_set(s: Seq<u32>, v: u32)
    ensures
        s.push(v).to_set() == s.to_set().insert(v),
{
    let t = s.push(v);
    assert forall|x: u32| t.to_set().contains(x) == s.to_set().insert(v).contains(x) by {
        if t.contains(x) {
            let k = choose|k: int| 0 <= k < t.len() && t[k] == x;
            if k < s.len() {
                assert(s[k] == x);
            }
        }
        if s.contains(x) {
            let k = choose|k: int| 0 <= k < s.len() && s[k] == x;
            assert(t[k] == x);
        }
        if x == v {
            assert(t[s.len() as int] == v);
        }
    }
    assert(t.to_set() =~= s.to_set().insert(v));
}

/// Sort `v[from..to]`, each value once.
fn sort_range(v: &Vec<u32>, from: usize, to: usize) -> (r: Vec<u32>)
    requires
        from <= to <= v.len(),
    ensures
        asc32(r@),
        r@.to_set() == v@.subrange(from as int, to as int).to_set(),
    decreases to - from,
{
    if to - from <= 1 {
        let mut r: Vec<u32> = Vec::new();
        if from < to {
            r.push(v[from]);
        }
        assert(r@ =~= v@.subrange(from as int, to as int));
        return r;
    }
    let mid: usize = from + (to - from) / 2;
    let a: Vec<u32> = sort_range(v, from, mid);
    let b: Vec<u32> = sort_range(v, mid, to);
    proof {
        let (x, y) = (v@.subrange(from as int, mid as int), v@.subrange(mid as int, to as int));
        let z = v@.subrange(from as int, to as int);
        assert(z =~= x + y);
        assert forall|w: u32| z.to_set().contains(w) == x.to_set().union(y.to_set()).contains(w) by {
            if z.contains(w) {
                let k = choose|k: int| 0 <= k < z.len() && z[k] == w;
                if k < x.len() {
                    assert(x[k] == w);
                } else {
                    assert(y[k - x.len()] == w);
                }
            }
            if x.contains(w) {
                let k = choose|k: int| 0 <= k < x.len() && x[k] == w;
                assert(z[k] == w);
            }
            if y.contains(w) {
                let k = choose|k: int| 0 <= k < y.len() && y[k] == w;
                assert(z[x.len() + k] == w);
            }
        }
        assert(z.to_set() =~= x.to_set().union(y.to_set()));
    }
    merge(&a, &b)
}

/// The values of `v`, ascending, each once.
pub fn sorted(v: Vec<u32>) -> (r: Vec<u32>)
    ensures
        asc32(r@),
        r@.to_set() == v@.to_set(),
{
    assert(v@.subrange(0, v@.len() as int) =~= v@);
    sort_range(&v, 0, v.len())
}

// --- random containers --------------------------------------------------------------------

/// What a draw becomes: it is shifted by `phase` and brought into `from..from + span`.
pub struct Window {
    pub phase: u32,
    pub from: u32,
    pub span: u32,
}

/// The whole of a container.
pub open spec fn whole(phase: u32) -> Window {
    Window { phase, from: 0, span: 65536 }
}

/// Low half of a draw.
pub open spec fn low(x: u64, w: Window) -> u16 {
    (w.from + (x as u32).wrapping_add(w.phase) % w.span) as u16
}

/// Value `j` of a scatter of `per_key` draws per key from key `k0` on.
pub open spec fn scattered(st: u64, k0: int, per_key: int, w: Window, j: int) -> u32 {
    join((k0 + j / per_key) as u16, low(draw(st, j as nat), w))
}

/// The values of such a scatter over `keys` keys.
pub open spec fn scatter_set(st: u64, k0: int, keys: int, per_key: int, w: Window) -> Set<u32> {
    Set::new(
        |v: u32|
            exists|j: int| 0 <= j < keys * per_key && v == #[trigger] scattered(st, k0, per_key, w, j),
    )
}

/// `per_key` draws under each of the keys `k0..k1`.
fn scatter(k0: u32, k1: u32, per_key: u32, w: Window, st: &mut u64) -> (r: Vec<u32>)
    requires
        k0 <= k1 <= 65536,
        0 < w.span,
        w.from + w.span <= 65536,
    ensures
        asc32(r@),
        r@.to_set() == scatter_set(*old(st), k0 as int, k1 - k0, per_key as int, w),
        *final(st) == state_after(*old(st), ((k1 - k0) * per_key) as nat),
{
    let mut v: Vec<u32> = Vec::new();
    let mut k: u32 = k0;
    let ghost s0 = *st;
    assert(0 * per_key == 0) by (nonlinear_arith);
    while k < k1
        invariant
            k0 <= k <= k1 <= 65536,
            0 < w.span,
            w.from + w.span <= 65536,
            s0 == *old(st),
            v.len() == (k - k0) * per_key,
            *st == state_after(s0, v.len() as nat),
            forall|j: int|
                0 <= j < v.len() ==> #[trigger] v@[j] == scattered(s0, k0 as int, per_key as int, w, j),
        decreases k1 - k,
    {
        let mut i: u32 = 0;
        let ghost base = v.len() as int;
        while i < per_key
            invariant
                k0 <= k < k1 <= 65536,
                0 < w.span,
                w.from + w.span <= 65536,
                i <= per_key,
                base == (k - k0) * per_key,
                v.len() == base + i,
                *st == state_after(s0, v.len() as nat),
                forall|j: int|
                    0 <= j < v.len() ==> #[trigger] v@[j] == scattered(
                        s0,
                        k0 as int,
                        per_key as int,
                        w,
                        j,
                    ),
            decreases per_key - i,
        {
            let x: u64 = splitmix64(st);
            #[verifier::truncate]
            let y: u32 = x as u32;
            let l: u16 = (w.from + y.wrapping_add(w.phase) % w.span) as u16;
            proof {
                let j = v.len() as int;
                assert(j / (per_key as int) == k - k0) by (nonlinear_arith)
                    requires
                        j == (k - k0) * per_key + i,
                        0 <= i < per_key,
                ;
                assert(x == draw(s0, j as nat));
            }
            v.push(at(k as u16, l));
            i = i + 1;
        }
        proof {
            assert((k + 1 - k0) * per_key == base + per_key) by (nonlinear_arith)
                requires
                    base == (k - k0) * per_key,
            ;
        }
        k = k + 1;
    }
    let ghost all = v@;
    let r: Vec<u32> = sorted(v);
    proof {
        let t = scatter_set(s0, k0 as int, k1 - k0, per_key as int, w);
        assert forall|x: u32| all.to_set().contains(x) == t.contains(x) by {
            if all.contains(x) {
                let j = choose|j: int| 0 <= j < all.len() && all[j] == x;
                assert(x == scattered(s0, k0 as int, per_key as int, w, j));
            }
            if t.contains(x) {
                let j = choose|j: int|
                    0 <= j < (k1 - k0) * per_key && x == #[trigger] scattered(
                        s0,
                        k0 as int,
                        per_key as int,
                        w,
                        j,
                    );
                assert(all[j] == x);
            }
        }
        assert(all.to_set() =~= t);
    }
    r
}

/// `keys` containers of `per_key` draws, shifted by `phase`: bitmaps where `per_key` is
/// large, else arrays.
pub fn dense(keys: u16, per_key: u32, phase: u32, st: &mut u64) -> (r: Vec<u32>)
    ensures
        asc32(r@),
        r@.to_set() == scatter_set(*old(st), 0, keys as int, per_key as int, whole(phase)),
        *final(st) == state_after(*old(st), (keys * per_key) as nat),
{
    scatter(0, keys as u32, per_key, Window { phase, from: 0, span: 65536 }, st)
}

/// Sparse arrays: `keys` containers of `per_key` draws.
pub fn arrays(keys: u16, per_key: u32, st: &mut u64) -> (r: Vec<u32>)
    ensures
        asc32(r@),
        r@.to_set() == scatter_set(*old(st), 0, keys as int, per_key as int, whole(0)),
        *final(st) == state_after(*old(st), (keys * per_key) as nat),
{
    scatter(0, keys as u32, per_key, Window { phase: 0, from: 0, span: 65536 }, st)
}

/// Thinly spread: with `per_key` tiny the builder picks the inline encoding.
pub fn thin(keys: u16, per_key: u32, phase: u32, st: &mut u64) -> (r: Vec<u32>)
    ensures
        asc32(r@),
        r@.to_set() == scatter_set(*old(st), 0, keys as int, per_key as int, whole(phase)),
        *final(st) == state_after(*old(st), (keys * per_key) as nat),
{
    scatter(0, keys as u32, per_key, Window { phase, from: 0, span: 65536 }, st)
}

/// Key past the last of `keys` keys from `k0` on, as far as there are keys.
pub open spec fn band_end(k0: u16, keys: u16) -> int {
    if k0 + keys > 65536 {
        65536
    } else {
        k0 + keys
    }
}

/// Key past the last of `keys` keys from `k0` on, as far as there are keys.
fn past_band(k0: u16, keys: u16) -> (r: u32)
    ensures
        r == band_end(k0, keys),
{
    let end: u32 = k0 as u32 + keys as u32;
    if end > 65536 {
        65536
    } else {
        end
    }
}

/// `per_key` draws in each of `keys` containers from key `k0` on.
pub fn key_band(k0: u16, keys: u16, per_key: u32, st: &mut u64) -> (r: Vec<u32>)
    ensures
        asc32(r@),
        r@.to_set() == scatter_set(
            *old(st),
            k0 as int,
            band_end(k0, keys) - k0,
            per_key as int,
            whole(0),
        ),
        *final(st) == state_after(*old(st), ((band_end(k0, keys) - k0) * per_key) as nat),
{
    scatter(k0 as u32, past_band(k0, keys), per_key, Window { phase: 0, from: 0, span: 65536 }, st)
}

/// How many keys `k0..k1` are.
pub open spec fn span(k0: u16, k1: u16) -> int {
    if k0 < k1 {
        k1 - k0
    } else {
        0
    }
}

/// `per_key` draws in each of the keys `k0..k1`: what key-selective trees are made of.
pub fn band(k0: u16, k1: u16, per_key: u32, st: &mut u64) -> (r: Vec<u32>)
    ensures
        asc32(r@),
        r@.to_set() == scatter_set(*old(st), k0 as int, span(k0, k1), per_key as int, whole(0)),
        *final(st) == state_after(*old(st), (span(k0, k1) * per_key) as nat),
{
    let end: u16 = if k0 < k1 {
        k1
    } else {
        k0
    };
    scatter(k0 as u32, end as u32, per_key, Window { phase: 0, from: 0, span: 65536 }, st)
}

/// `per_key` draws of `from..to` under each of `keys` keys.
pub fn window(keys: u16, from: u32, to: u32, per_key: u32, st: &mut u64) -> (r: Vec<u32>)
    requires
        from < to <= 65536,
    ensures
        asc32(r@),
        r@.to_set() == scatter_set(
            *old(st),
            0,
            keys as int,
            per_key as int,
            (Window { phase: 0, from, span: (to - from) as u32 }),
        ),
        *final(st) == state_after(*old(st), (keys * per_key) as nat),
{
    scatter(0, keys as u32, per_key, Window { phase: 0, from, span: to - from }, st)
}

/// Draws after draws.
pub proof fn lemma_state_after(s: u64, a: nat, b: nat)
    ensures
        state_after(state_after(s, a), b) == state_after(s, a + b),
    decreases b,
{
    if b > 0 {
        lemma_state_after(s, a, (b - 1) as nat);
    }
}

// --- steps --------------------------------------------------------------------------------

/// `count` values from `base` on, `step` apart, under each of `keys` keys.
pub open spec fn steps_set(keys: int, base: int, step: int, count: int) -> Set<u32> {
    Set::new(
        |v: u32|
            exists|k: int, j: int|
                0 <= k < keys && 0 <= j < count && v == #[trigger] step_value(k, base, step, j),
    )
}

/// Value `j` under key `k`.
pub open spec fn step_value(k: int, base: int, step: int, j: int) -> int {
    k * 65536 + base + j * step
}

proof fn lemma_step_value(k: int, base: int, step: int, j: int, k1: int, j1: int, count: int)
    requires
        0 < step,
        0 <= j < count,
        0 <= j1 < count,
        k1 < k || (k1 == k && j1 < j),
        k1 < k ==> (count - 1) * step < 65536,
    ensures
        step_value(k1, base, step, j1) < step_value(k, base, step, j),
{
    assert(j1 * step <= (count - 1) * step && 0 <= j * step) by (nonlinear_arith)
        requires
            0 < step,
            0 <= j,
            0 <= j1 < count,
    ;
    if k1 == k {
        assert(j1 * step < j * step) by (nonlinear_arith)
            requires
                0 < step,
                j1 < j,
        ;
    }
}

/// Evenly spaced values: `count` of them, `step` apart from `base` on, under each of `keys`
/// keys.
pub fn steps(keys: u16, base: u32, step: u32, count: u32) -> (r: Vec<u32>)
    requires
        0 < step,
        keys > 1 ==> count * step <= 65536,
        keys * 65536 + base + count * step <= u32::MAX,
    ensures
        asc32(r@),
        r@.to_set() == steps_set(keys as int, base as int, step as int, count as int),
{
    let mut out: Vec<u32> = Vec::new();
    let mut k: u16 = 0;
    while k < keys
        invariant
            0 < step,
            keys > 1 ==> count * step <= 65536,
            keys * 65536 + base + count * step <= u32::MAX,
            k <= keys,
            asc32(out@),
            forall|x: u32| #[trigger]
                out@.contains(x) <==> steps_set(
                    k as int,
                    base as int,
                    step as int,
                    count as int,
                ).contains(x),
        decreases keys - k,
    {
        let ghost before = out@;
        let mut j: u32 = 0;
        while j < count
            invariant
                0 < step,
                keys > 1 ==> count * step <= 65536,
                keys * 65536 + base + count * step <= u32::MAX,
                k < keys,
                j <= count,
                asc32(out@),
                before.len() <= out.len(),
                out@.take(before.len() as int) == before,
                out.len() == before.len() + j,
                forall|x: u32| #[trigger]
                    before.contains(x) <==> steps_set(
                        k as int,
                        base as int,
                        step as int,
                        count as int,
                    ).contains(x),
                forall|i: int|
                    0 <= i < j ==> #[trigger] out@[before.len() + i] == step_value(
                        k as int,
                        base as int,
                        step as int,
                        i,
                    ),
            decreases count - j,
        {
            proof {
                assert(0 <= j * step <= count * step) by (nonlinear_arith)
                    requires
                        0 <= j < count,
                        0 < step,
                ;
                assert(k * 65536 + 65536 <= keys * 65536);
            }
            let v: u32 = k as u32 * 65536 + base + j * step;
            proof {
                assert(v == step_value(k as int, base as int, step as int, j as int));
                assert forall|i: int| 0 <= i < out.len() implies #[trigger] out@[i] < v by {
                    if i < before.len() {
                        assert(out@.take(before.len() as int)[i] == before[i]);
                        assert(before.contains(before[i]));
                        let (k1, j1) = choose|k1: int, j1: int|
                            0 <= k1 < k && 0 <= j1 < count && before[i] == #[trigger] step_value(
                                k1,
                                base as int,
                                step as int,
                                j1,
                            );
                        assert((count - 1) * step < count * step) by (nonlinear_arith)
                            requires
                                0 < step,
                        ;
                        lemma_step_value(
                            k as int,
                            base as int,
                            step as int,
                            j as int,
                            k1,
                            j1,
                            count as int,
                        );
                    } else {
                        let i1 = i - before.len();
                        assert(out@[before.len() + i1] == step_value(
                            k as int,
                            base as int,
                            step as int,
                            i1,
                        ));
                        lemma_step_value(
                            k as int,
                            base as int,
                            step as int,
                            j as int,
                            k as int,
                            i1,
                            count as int,
                        );
                    }
                }
            }
            let ghost mid = out@;
            out.push(v);
            assert(out@.take(before.len() as int) =~= mid.take(before.len() as int));
            j = j + 1;
        }
        proof {
            let (now, next) = (
                steps_set(k as int, base as int, step as int, count as int),
                steps_set(k + 1, base as int, step as int, count as int),
            );
            assert forall|x: u32| #[trigger] out@.contains(x) <==> next.contains(x) by {
                if out@.contains(x) {
                    let i = choose|i: int| 0 <= i < out.len() && out@[i] == x;
                    if i < before.len() {
                        assert(out@.take(before.len() as int)[i] == before[i]);
                        assert(before.contains(x));
                        assert(now.contains(x));
                    } else {
                        let i1 = i - before.len();
                        assert(out@[before.len() + i1] == step_value(
                            k as int,
                            base as int,
                            step as int,
                            i1,
                        ));
                    }
                }
                if next.contains(x) {
                    let (k1, j1) = choose|k1: int, j1: int|
                        0 <= k1 < k + 1 && 0 <= j1 < count && x == #[trigger] step_value(
                            k1,
                            base as int,
                            step as int,
                            j1,
                        );
                    if k1 < k {
                        assert(now.contains(x));
                        assert(before.contains(x));
                        let i = choose|i: int| 0 <= i < before.len() && before[i] == x;
                        assert(out@.take(before.len() as int)[i] == before[i]);
                        assert(out@[i] == x);
                    } else {
                        assert(out@[before.len() + j1] == x);
                    }
                }
            }
        }
        k = k + 1;
    }
    assert(out@.to_set() =~= steps_set(keys as int, base as int, step as int, count as int));
    out
}

// --- runs ---------------------------------------------------------------------------------

/// Some range of the first `n` covers `l`.
pub open spec fn covered(ranges: Seq<(int, int)>, l: u16) -> bool {
    exists|q: int| 0 <= q < ranges.len() && (#[trigger] ranges[q]).0 <= l < ranges[q].1
}

/// Append the range `from..to`.
fn push_range(v: &mut Vec<u16>, from: u32, to: u32, Ghost(before): Ghost<Seq<(int, int)>>)
    requires
        to <= 65536,
        forall|l: u16| #[trigger] old(v)@.contains(l) <==> covered(before, l),
    ensures
        forall|l: u16| #[trigger]
            final(v)@.contains(l) <==> covered(before.push((from as int, to as int)), l),
{
    let ghost (v0, all) = (v@, before.push((from as int, to as int)));
    let mut x: u32 = from;
    while x < to
        invariant
            from <= x,
            from <= to ==> x <= to,
            from > to ==> x == from,
            to <= 65536,
            v@.len() == v0.len() + (x - from),
            forall|k: int| 0 <= k < v0.len() ==> #[trigger] v@[k] == v0[k],
            forall|k: int| v0.len() <= k < v@.len() ==> #[trigger] v@[k] == from + (k - v0.len()),
        decreases to - x,
    {
        v.push(x as u16);
        x = x + 1;
    }
    proof {
        let n = before.len() as int;
        assert forall|l: u16| #[trigger] v@.contains(l) <==> covered(all, l) by {
            if v@.contains(l) {
                let k = choose|k: int| 0 <= k < v@.len() && v@[k] == l;
                if k < v0.len() {
                    assert(v0[k] == l);
                    assert(v0.contains(l));
                    let q = choose|q: int|
                        0 <= q < before.len() && (#[trigger] before[q]).0 <= l < before[q].1;
                    assert(all[q] == before[q]);
                } else {
                    assert(v@[k] == from + (k - v0.len()));
                    assert(all[n] == (from as int, to as int));
                    assert(all[n].0 <= l < all[n].1);
                }
            }
            if covered(all, l) {
                let q = choose|q: int| 0 <= q < all.len() && (#[trigger] all[q]).0 <= l < all[q].1;
                if q < n {
                    assert(before[q] == all[q]);
                    assert(covered(before, l));
                    assert(v0.contains(l));
                    let k = choose|k: int| 0 <= k < v0.len() && v0[k] == l;
                    assert(v@[k] == l);
                } else {
                    assert(v@[v0.len() + (l - from)] == l);
                }
            }
        }
    }
}

/// The values with a key of `k0..k1` whose low half the ranges cover.
pub open spec fn ranges_set(k0: int, k1: int, ranges: Seq<(int, int)>) -> Set<u32> {
    Set::new(|v: u32| k0 <= hi(v) < k1 && covered(ranges, lo(v)))
}

/// The given low halves under each of the keys `k0..k1`.
fn spread(k0: u32, k1: u32, lows: &Vec<u16>, Ghost(ranges): Ghost<Seq<(int, int)>>) -> (r: Vec<u32>)
    requires
        k0 <= k1 <= 65536,
        forall|l: u16| #[trigger] lows@.contains(l) <==> covered(ranges, l),
    ensures
        asc32(r@),
        r@.to_set() == ranges_set(k0 as int, k1 as int, ranges),
{
    let mut v: Vec<u32> = Vec::new();
    let mut k: u32 = k0;
    while k < k1
        invariant
            k0 <= k <= k1 <= 65536,
            forall|l: u16| #[trigger] lows@.contains(l) <==> covered(ranges, l),
            forall|x: u32| #[trigger] v@.contains(x) <==> k0 <= hi(x) < k && covered(ranges, lo(x)),
        decreases k1 - k,
    {
        let ghost v0 = v@;
        let mut i: usize = 0;
        while i < lows.len()
            invariant
                i <= lows.len(),
                v@.len() == v0.len() + i,
                forall|j: int| 0 <= j < v0.len() ==> #[trigger] v@[j] == v0[j],
                forall|j: int| 0 <= j < i ==> v@[v0.len() + j] == join(k as u16, #[trigger] lows@[j]),
            decreases lows.len() - i,
        {
            v.push(at(k as u16, lows[i]));
            i = i + 1;
        }
        proof {
            assert forall|x: u32| #[trigger] v@.contains(x) <==> k0 <= hi(x) < k + 1 && covered(
                ranges,
                lo(x),
            ) by {
                lemma_split(x);
                if v@.contains(x) {
                    let j = choose|j: int| 0 <= j < v@.len() && v@[j] == x;
                    if j < v0.len() {
                        assert(v0[j] == x);
                        assert(v0.contains(x));
                    } else {
                        let l = lows@[j - v0.len()];
                        assert(v@[v0.len() + (j - v0.len())] == join(k as u16, l));
                        lemma_join(k as u16, l);
                        assert(lows@.contains(l));
                    }
                }
                if k0 <= hi(x) < k + 1 && covered(ranges, lo(x)) {
                    if hi(x) < k {
                        assert(v0.contains(x));
                        let j = choose|j: int| 0 <= j < v0.len() && v0[j] == x;
                        assert(v@[j] == x);
                    } else {
                        assert(lows@.contains(lo(x)));
                        let j = choose|j: int| 0 <= j < lows@.len() && lows@[j] == lo(x);
                        assert(v@[v0.len() + j] == join(k as u16, lows@[j]));
                    }
                }
            }
        }
        k = k + 1;
    }
    let ghost all = v@;
    let r: Vec<u32> = sorted(v);
    assert(all.to_set() =~= ranges_set(k0 as int, k1 as int, ranges));
    r
}

/// Block `q` of a run-heavy container: the blocks that fit.
pub open spec fn block_ranges(block: int, gap: int) -> Seq<(int, int)> {
    Seq::new(
        (if block <= 65536 {
            (65536 - block) / (block + gap) + 1
        } else {
            0
        }) as nat,
        |q: int| (q * (block + gap), q * (block + gap) + block),
    )
}

/// The blocks that fit are the first ones.
proof fn lemma_block(block: int, gap: int, q: int)
    requires
        0 <= q,
        0 <= block <= 65536,
        0 < block + gap,
    ensures
        q * (block + gap) + block <= 65536 <==> q < block_ranges(block, gap).len(),
        (q + 1) * (block + gap) == q * (block + gap) + (block + gap),
{
    let (d, s) = (65536 - block, block + gap);
    vstd::arithmetic::div_mod::lemma_fundamental_div_mod(d, s);
    vstd::arithmetic::div_mod::lemma_mod_bound(d, s);
    let (e, m) = (d / s, d % s);
    assert(e >= 0 && (q * s <= d <==> q <= e)) by (nonlinear_arith)
        requires
            s > 0,
            d >= 0,
            d == s * e + m,
            0 <= m < s,
    ;
    assert((q + 1) * s == q * s + s) by (nonlinear_arith);
}

/// Run-heavy: per container, blocks of `block` consecutive values, `gap` apart, as many as
/// fit.
pub fn runs(keys: u16, block: u32, gap: u32) -> (r: Vec<u32>)
    requires
        block > 65536 || 0 < block + gap <= u32::MAX - 65536,
    ensures
        asc32(r@),
        r@.to_set() == ranges_set(0, keys as int, block_ranges(block as int, gap as int)),
{
    let mut lows: Vec<u16> = Vec::new();
    let ghost all = block_ranges(block as int, gap as int);
    if block > 65536 {
        return spread(0, keys as u32, &lows, Ghost(all));
    }
    let ghost stride = block + gap;
    let ghost mut q: int = 0;
    let mut x: u32 = 0;
    proof {
        assert(all.take(0) =~= Seq::<(int, int)>::empty());
        assert(0 * stride == 0) by (nonlinear_arith);
        lemma_block(block as int, gap as int, 0);
    }
    while x + block <= 65536
        invariant
            block <= 65536,
            0 < block + gap <= u32::MAX - 65536,
            stride == block + gap,
            all == block_ranges(block as int, gap as int),
            0 <= q <= all.len(),
            x == q * stride,
            x + block <= 65536 + stride,
            x + block <= 65536 <==> q < all.len(),
            forall|l: u16| #[trigger] lows@.contains(l) <==> covered(all.take(q), l),
        decreases 65536 + stride - x,
    {
        assert(all.take(q).push((x as int, x + block)) =~= all.take(q + 1));
        push_range(&mut lows, x, x + block, Ghost(all.take(q)));
        proof {
            lemma_block(block as int, gap as int, q);
            lemma_block(block as int, gap as int, q + 1);
            q = q + 1;
        }
        x = x + (block + gap);
    }
    assert(all.take(q) =~= all);
    spread(0, keys as u32, &lows, Ghost(all))
}

/// The long ranges of a dense, run-encoded container.
pub open spec fn long_ranges(nranges: int, rlen: int, phase: int) -> Seq<(int, int)> {
    Seq::new(
        nranges as nat,
        |i: int|
            {
                let start = (i * (65536int / nranges) + phase) % 65536;
                (
                    start,
                    if start + rlen > 65535 {
                        65536
                    } else {
                        start + rlen + 1
                    },
                )
            },
    )
}

/// `keys` containers of `nranges` long ranges of `rlen` values and one, shifted by `phase`.
pub fn run_ranges(keys: u16, nranges: u32, rlen: u32, phase: u32) -> (r: Vec<u32>)
    requires
        nranges > 0,
        rlen <= u32::MAX - 65536,
        phase <= u32::MAX - 65536,
    ensures
        asc32(r@),
        r@.to_set() == ranges_set(
            0,
            keys as int,
            long_ranges(nranges as int, rlen as int, phase as int),
        ),
{
    let stride: u32 = 65536 / nranges;
    let mut lows: Vec<u16> = Vec::new();
    let ghost all = long_ranges(nranges as int, rlen as int, phase as int);
    let mut i: u32 = 0;
    assert(all.take(0) =~= Seq::<(int, int)>::empty());
    while i < nranges
        invariant
            i <= nranges,
            nranges > 0,
            stride == 65536u32 / nranges,
            rlen <= u32::MAX - 65536,
            phase <= u32::MAX - 65536,
            all == long_ranges(nranges as int, rlen as int, phase as int),
            forall|l: u16| #[trigger] lows@.contains(l) <==> covered(all.take(i as int), l),
        decreases nranges - i,
    {
        proof {
            vstd::arithmetic::div_mod::lemma_fundamental_div_mod(65536, nranges as int);
            vstd::arithmetic::div_mod::lemma_mod_bound(65536, nranges as int);
            let (n, s) = (nranges as int, stride as int);
            assert(0 <= i * s <= 65536) by (nonlinear_arith)
                requires
                    0 <= i < n,
                    0 <= s,
                    n * s <= 65536,
            ;
        }
        let start: u32 = (i * stride + phase) % 65536;
        let end: u32 = if start + rlen > 65535 {
            65536
        } else {
            start + rlen + 1
        };
        assert(all.take(i as int).push((start as int, end as int)) =~= all.take(i + 1));
        push_range(&mut lows, start, end, Ghost(all.take(i as int)));
        i = i + 1;
    }
    assert(all.take(i as int) =~= all);
    spread(0, keys as u32, &lows, Ghost(all))
}

/// Distance between the evenly spaced runs.
pub open spec fn run_stride(nruns: int) -> int {
    if 65536int / nruns > 2 {
        65536int / nruns
    } else {
        2
    }
}

/// Evenly spaced runs, each half their distance long.
pub open spec fn even_ranges(nruns: int, phase: int) -> Seq<(int, int)> {
    let stride = run_stride(nruns);
    let len = stride / 2;
    Seq::new(
        nruns as nat,
        |i: int|
            {
                let start = i * stride + phase % (stride - len);
                (
                    start,
                    if start + len > 65536 {
                        65536
                    } else {
                        start + len
                    },
                )
            },
    )
}

/// `keys` containers of `nruns` evenly spaced runs, each half the distance long, so that the
/// gaps never close.
pub fn run_count(keys: u16, nruns: u32, phase: u32) -> (r: Vec<u32>)
    requires
        0 < nruns <= 0x7FFF_0000,
    ensures
        asc32(r@),
        r@.to_set() == ranges_set(0, keys as int, even_ranges(nruns as int, phase as int)),
{
    let mut stride: u32 = 65536 / nruns;
    if stride < 2 {
        stride = 2;
    }
    let len: u32 = stride / 2;
    let shift: u32 = phase % (stride - len);
    let mut lows: Vec<u16> = Vec::new();
    let ghost all = even_ranges(nruns as int, phase as int);
    let mut i: u32 = 0;
    assert(all.take(0) =~= Seq::<(int, int)>::empty());
    while i < nruns
        invariant
            i <= nruns,
            0 < nruns <= 0x7FFF_0000,
            stride == run_stride(nruns as int),
            len == stride / 2,
            shift == phase % ((stride - len) as u32),
            2 <= stride <= 65536,
            all == even_ranges(nruns as int, phase as int),
            forall|l: u16| #[trigger] lows@.contains(l) <==> covered(all.take(i as int), l),
        decreases nruns - i,
    {
        proof {
            let (n, s) = (nruns as int, stride as int);
            vstd::arithmetic::div_mod::lemma_fundamental_div_mod(65536, n);
            vstd::arithmetic::div_mod::lemma_mod_bound(65536, n);
            if s == 2 {
                assert(i * s <= 2 * 0x7FFF_0000);
            } else {
                assert(0 <= i * s <= 65536) by (nonlinear_arith)
                    requires
                        0 <= i < n,
                        0 <= s,
                        n * s <= 65536,
                ;
            }
            assert(i * s >= 0) by (nonlinear_arith)
                requires
                    i >= 0,
                    s >= 0,
            ;
        }
        let start: u32 = i * stride + shift;
        let end: u32 = if start + len > 65536 {
            65536
        } else {
            start + len
        };
        assert(all.take(i as int).push((start as int, end as int)) =~= all.take(i + 1));
        push_range(&mut lows, start, end, Ghost(all.take(i as int)));
        i = i + 1;
    }
    assert(all.take(i as int) =~= all);
    spread(0, keys as u32, &lows, Ghost(all))
}

/// `keys` fully saturated containers from key `k0` on.
pub fn full_keys(k0: u16, keys: u16) -> (r: Vec<u32>)
    ensures
        asc32(r@),
        r@.to_set() == ranges_set(k0 as int, band_end(k0, keys), seq![(0, 65536)]),
{
    let mut lows: Vec<u16> = Vec::new();
    let ghost none = Seq::<(int, int)>::empty();
    assert(none.push((0, 65536)) =~= seq![(0int, 65536int)]);
    push_range(&mut lows, 0, 65536, Ghost(none));
    let ghost all = seq![(0int, 65536int)];
    spread(k0 as u32, past_band(k0, keys), &lows, Ghost(all))
}

// --- shuffled halves ------------------------------------------------------------------------

/// A list with the entries up to `i` shuffled: each, from `i` down, changes places with one
/// drawn at or below it.
pub open spec fn shuffled(s: u64, v: Seq<u16>, i: int) -> Seq<u16>
    decreases i,
{
    if i <= 0 {
        v
    } else {
        let j = (mix(next_state(s)) as usize % (i + 1) as usize) as int;
        shuffled(next_state(s), swapped(v, i, j), i - 1)
    }
}

/// Two entries in each other's place.
pub open spec fn swapped(v: Seq<u16>, i: int, j: int) -> Seq<u16> {
    v.update(i, v[j]).update(j, v[i])
}

/// The list holds each of the values below its length once.
pub open spec fn permutation(v: Seq<u16>) -> bool {
    &&& forall|i: int| 0 <= i < v.len() ==> #[trigger] v[i] < v.len()
    &&& forall|i: int, j: int| 0 <= i < j < v.len() ==> v[i] != v[j]
    &&& forall|x: u16| x < v.len() ==> #[trigger] v.contains(x)
}

proof fn lemma_swapped(v: Seq<u16>, i: int, j: int)
    requires
        permutation(v),
        0 <= i < v.len(),
        0 <= j < v.len(),
    ensures
        permutation(swapped(v, i, j)),
{
    let w = swapped(v, i, j);
    assert forall|x: u16| x < w.len() implies #[trigger] w.contains(x) by {
        assert(v.contains(x));
        let k = choose|k: int| 0 <= k < v.len() && v[k] == x;
        if k == i {
            assert(w[j] == x);
        } else if k == j {
            assert(w[i] == x);
        } else {
            assert(w[k] == x);
        }
    }
}

/// A part of a list without repeats, ascending.
fn ascending(v: &Vec<u16>, from: usize, to: usize) -> (r: Vec<u16>)
    requires
        from <= to <= v.len(),
        forall|i: int, j: int| 0 <= i < j < v.len() ==> v@[i] != v@[j],
    ensures
        asc16(r@),
        r@.to_set() == v@.subrange(from as int, to as int).to_set(),
        r.len() == to - from,
{
    let ghost part = v@.subrange(from as int, to as int);
    let mut wide: Vec<u32> = Vec::new();
    let mut k: usize = from;
    while k < to
        invariant
            from <= k <= to <= v.len(),
            part == v@.subrange(from as int, to as int),
            wide.len() == k - from,
            forall|i: int| 0 <= i < wide.len() ==> #[trigger] wide@[i] == part[i],
        decreases to - k,
    {
        wide.push(v[k] as u32);
        k = k + 1;
    }
    let ghost all = wide@;
    let up: Vec<u32> = sorted(wide);
    let mut out: Vec<u16> = Vec::new();
    let mut k: usize = 0;
    proof {
        assert forall|i: int| 0 <= i < up.len() implies #[trigger] up@[i] < 65536 by {
            assert(up@.to_set().contains(up@[i]));
            assert(all.contains(up@[i]));
        }
    }
    while k < up.len()
        invariant
            k <= up.len(),
            out.len() == k,
            forall|i: int| 0 <= i < up.len() ==> #[trigger] up@[i] < 65536,
            forall|i: int| 0 <= i < k ==> #[trigger] out@[i] == up@[i],
        decreases up.len() - k,
    {
        assert(up@[k as int] < 65536);
        out.push(up[k] as u16);
        k = k + 1;
    }
    proof {
        assert forall|x: u16| out@.to_set().contains(x) == part.to_set().contains(x) by {
            if out@.contains(x) {
                let i = choose|i: int| 0 <= i < out.len() && out@[i] == x;
                assert(up@.to_set().contains(up@[i]));
                let j = choose|j: int| 0 <= j < all.len() && all[j] == up@[i];
                assert(part[j] == x);
            }
            if part.contains(x) {
                let j = choose|j: int| 0 <= j < part.len() && part[j] == x;
                assert(all[j] == x);
                assert(all.to_set().contains(x as u32));
                let i = choose|i: int| 0 <= i < up.len() && up@[i] == x as u32;
                assert(out@[i] == x);
            }
        }
        assert(out@.to_set() =~= part.to_set());
        assert(part.no_duplicates());
        part.unique_seq_to_set();
        lemma_asc16_len(out@);
    }
    out
}

/// Each value below the length is in one of the two parts of a permutation, and in one only.
proof fn lemma_halves(v: Seq<u16>, n: int)
    requires
        permutation(v),
        0 <= n <= v.len(),
    ensures
        forall|x: u16| x < v.len() ==> (v.take(n).contains(x) <==> !v.skip(n).contains(x)),
        forall|x: u16| x >= v.len() ==> !v.take(n).contains(x) && !v.skip(n).contains(x),
{
    let (a, b) = (v.take(n), v.skip(n));
    assert forall|x: u16| x < v.len() implies (a.contains(x) <==> !b.contains(x)) by {
        assert(v.contains(x));
        let k = choose|k: int| 0 <= k < v.len() && v[k] == x;
        if k < n {
            assert(a[k] == x);
        } else {
            assert(b[k - n] == x);
        }
        if a.contains(x) && b.contains(x) {
            let i = choose|i: int| 0 <= i < a.len() && a[i] == x;
            let j = choose|j: int| 0 <= j < b.len() && b[j] == x;
            assert(v[i] == v[n + j]);
        }
    }
    assert forall|x: u16| x >= v.len() implies !a.contains(x) && !b.contains(x) by {
        if a.contains(x) {
            let i = choose|i: int| 0 <= i < a.len() && a[i] == x;
            assert(v[i] == x);
        }
        if b.contains(x) {
            let j = choose|j: int| 0 <= j < b.len() && b[j] == x;
            assert(v[n + j] == x);
        }
    }
}

/// The values below `2 * n`, dealt out at random into two ascending lists of `n`.
pub fn random_halves(n: u16, st: &mut u64) -> (r: (Vec<u16>, Vec<u16>))
    requires
        n <= 32767,
    ensures
        asc16(r.0@),
        asc16(r.1@),
        r.0.len() == n,
        r.1.len() == n,
        ({
            let v = shuffled(*old(st), Seq::new(2 * n as nat, |i: int| i as u16), 2 * n - 1);
            &&& r.0@.to_set() == v.take(n as int).to_set()
            &&& r.1@.to_set() == v.skip(n as int).to_set()
            &&& permutation(v)
        }),
        forall|x: u16| x < 2 * n ==> (#[trigger] r.0@.contains(x) <==> !r.1@.contains(x)),
        forall|x: u16| x >= 2 * n ==> !(#[trigger] r.0@.contains(x)) && !r.1@.contains(x),
        *final(st) == state_after(
            *old(st),
            if n == 0 {
                0
            } else {
                (2 * n - 1) as nat
            },
        ),
{
    let len: usize = 2 * n as usize;
    let mut idx: Vec<u16> = Vec::new();
    let mut k: u16 = 0;
    while k < 2 * n
        invariant
            n <= 32767,
            k <= 2 * n,
            idx.len() == k,
            forall|i: int| 0 <= i < k ==> #[trigger] idx@[i] == i,
        decreases 2 * n - k,
    {
        idx.push(k);
        k = k + 1;
    }
    let ghost want = shuffled(*st, Seq::new(2 * n as nat, |i: int| i as u16), 2 * n - 1);
    proof {
        assert(idx@ =~= Seq::new(2 * n as nat, |i: int| i as u16));
        assert forall|x: u16| x < idx.len() implies #[trigger] idx@.contains(x) by {
            assert(idx@[x as int] == x);
        }
    }
    let ghost s0 = *st;
    let mut i: usize = len;
    while i > 1
        invariant
            i <= len,
            len <= 65534,
            len > 0 ==> 0 < i && *st == state_after(s0, (len - i) as nat),
            len == 0 ==> *st == s0,
            idx.len() == len,
            permutation(idx@),
            want == shuffled(*st, idx@, i - 1),
        decreases i,
    {
        i = i - 1;
        let j: usize = (splitmix64(st) as usize) % (i + 1);
        let (x, y): (u16, u16) = (idx[i], idx[j]);
        proof {
            lemma_swapped(idx@, i as int, j as int);
        }
        idx.set(i, y);
        idx.set(j, x);
    }
    let a: Vec<u16> = ascending(&idx, 0, n as usize);
    let b: Vec<u16> = ascending(&idx, n as usize, len);
    proof {
        assert(idx@.subrange(0, n as int) =~= idx@.take(n as int));
        assert(idx@.subrange(n as int, len as int) =~= idx@.skip(n as int));
        lemma_halves(idx@, n as int);
        let (p, q) = (idx@.take(n as int), idx@.skip(n as int));
        assert forall|x: u16| x < 2 * n implies (#[trigger] a@.contains(x) <==> !b@.contains(x)) by {
            assert(a@.to_set().contains(x) == p.to_set().contains(x));
            assert(b@.to_set().contains(x) == q.to_set().contains(x));
        }
        assert forall|x: u16| x >= 2 * n implies !(#[trigger] a@.contains(x)) && !b@.contains(x) by {
            assert(a@.to_set().contains(x) == p.to_set().contains(x));
            assert(b@.to_set().contains(x) == q.to_set().contains(x));
        }
    }
    (a, b)
}

} // verus!
