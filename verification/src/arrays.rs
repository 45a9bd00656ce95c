//! Set operations on strictly ascending `u16` arrays.
//!
//! Balanced inputs are merged block by block, eight values of each side at a
//! time; skewed inputs scan or gallop through the larger side.
use vstd::prelude::*;

use crate::model::{asc16, lemma_asc16_bound, lemma_asc16_len, lemma_set16, lists, untouched};

verus! {

/// At or below this size ratio two arrays are balanced enough for the block
/// merge; above it a scan of the larger side wins.
pub const MERGE_MAX_RATIO: usize = 4;

/// Values per block and per scan window.
pub const LANES: usize = 8;

// --- progress of a merge ---------------------------------------------------------

/// The first `k` entries of `out` list the elements of `t` below `bound`.
pub open spec fn done(out: Seq<u16>, k: int, t: Set<u16>, bound: int) -> bool {
    &&& 0 <= k <= out.len()
    &&& asc16(out.take(k))
    &&& forall|x: u16|
        #![trigger out.take(k).contains(x)]
        #![trigger t.contains(x)]
        out.take(k).contains(x) <==> t.contains(x) && x < bound
}

/// The element at `i`, or the end of the value space.
pub open spec fn head(a: Seq<u16>, i: int) -> int {
    if i < a.len() {
        a[i] as int
    } else {
        65536
    }
}

pub(crate) proof fn lemma_done_start(out: Seq<u16>, t: Set<u16>)
    ensures
        done(out, 0, t, 0),
{
}

/// Nothing of `t` lies between the bounds.
pub(crate) proof fn lemma_done_skip(out: Seq<u16>, k: int, t: Set<u16>, from: int, to: int)
    requires
        done(out, k, t, from),
        forall|x: u16| #[trigger] t.contains(x) ==> (x < from <==> x < to),
    ensures
        done(out, k, t, to),
{
}

/// `v` is the next element of `t`.
pub(crate) proof fn lemma_done_emit(before: Seq<u16>, k: int, t: Set<u16>, bound: int, v: u16)
    requires
        done(before, k, t, bound),
        k < before.len(),
        bound <= v,
        t.contains(v),
        forall|x: u16| bound <= x < v ==> !(#[trigger] t.contains(x)),
    ensures
        done(before.update(k, v), k + 1, t, v + 1),
{
    let after = before.update(k, v);
    let (p, q) = (before.take(k), after.take(k + 1));
    assert(q =~= p.push(v));
    assert forall|i: int, j: int| 0 <= i < j < q.len() implies q[i] < q[j] by {
        if j == k {
            assert(p.contains(p[i]));
        }
    }
    assert forall|x: u16|
        #![trigger q.contains(x)]
        #![trigger t.contains(x)]
        q.contains(x) <==> t.contains(x) && x < v + 1 by {
        if q.contains(x) {
            let i = choose|i: int| 0 <= i < q.len() && q[i] == x;
            if i < k {
                assert(p[i] == x);
                assert(p.contains(x));
            }
        }
        if t.contains(x) && x < v + 1 {
            if x < bound {
                assert(p.contains(x));
                let i = choose|i: int| 0 <= i < p.len() && p[i] == x;
                assert(q[i] == x);
            } else {
                assert(x == v);
                assert(q[k] == v);
            }
        }
    }
}

/// While an element of `t` is missing, fewer entries than `t` has elements are used.
pub(crate) proof fn lemma_done_room(out: Seq<u16>, k: int, t: Set<u16>, bound: int, v: u16)
    requires
        done(out, k, t, bound),
        bound <= v,
        t.contains(v),
    ensures
        k < t.len(),
{
    let p = out.take(k);
    lemma_asc16_len(p);
    lemma_set16(t);
    assert forall|x: u16| p.to_set().contains(x) implies t.remove(v).contains(x) by {
        assert(p.contains(x));
    }
    vstd::set_lib::lemma_len_subset(p.to_set(), t.remove(v));
}

pub(crate) proof fn lemma_done_end(out: Seq<u16>, k: int, t: Set<u16>)
    requires
        done(out, k, t, 65536),
    ensures
        lists(out, k, t),
{
    assert forall|x: u16| out.take(k).to_set().contains(x) == t.contains(x) by {
        assert(out.take(k).contains(x) <==> t.contains(x) && x < 65536);
    }
    assert(out.take(k).to_set() =~= t);
}

/// A value strictly between two neighbours of an ascending sequence is not in it.
proof fn lemma_absent(a: Seq<u16>, i: int, x: u16)
    requires
        asc16(a),
        0 <= i <= a.len(),
        i > 0 ==> a[i - 1] < x,
        x < head(a, i),
    ensures
        !a.contains(x),
{
    if a.contains(x) {
        let j = choose|j: int| 0 <= j < a.len() && a[j] == x;
        if j < i {
            assert(a[j] <= a[i - 1]);
        } else {
            assert(a[i] <= a[j]);
        }
    }
}

/// Nothing of `t` precedes the first element of a sequence that holds all of it.
proof fn lemma_done_first(out: Seq<u16>, a: Seq<u16>, t: Set<u16>)
    requires
        asc16(a),
        forall|x: u16| #[trigger] t.contains(x) ==> a.contains(x),
    ensures
        done(out, 0, t, head(a, 0)),
{
    lemma_done_start(out, t);
    assert forall|z: u16| #[trigger] t.contains(z) implies (z < 0 <==> z < head(a, 0)) by {
        if z < head(a, 0) {
            lemma_absent(a, 0, z);
        }
    }
    lemma_done_skip(out, 0, t, 0, head(a, 0));
}

/// Past `a[i]`, the next candidate of `t` is the element after it.
proof fn lemma_done_gap(out: Seq<u16>, k: int, a: Seq<u16>, i: int, t: Set<u16>)
    requires
        asc16(a),
        0 <= i < a.len(),
        forall|x: u16| #[trigger] t.contains(x) ==> a.contains(x),
        done(out, k, t, a[i] + 1),
    ensures
        done(out, k, t, head(a, i + 1)),
{
    assert forall|z: u16| #[trigger] t.contains(z) implies (z < a[i] + 1 <==> z < head(a, i + 1)) by {
        if a[i] < z < head(a, i + 1) {
            lemma_absent(a, i + 1, z);
        }
    }
    lemma_done_skip(out, k, t, a[i] + 1, head(a, i + 1));
}

// --- intersection ----------------------------------------------------------------

/// The values common to `a` and `b`.
pub open spec fn common(a: Seq<u16>, b: Seq<u16>) -> Set<u16> {
    a.to_set().intersect(b.to_set())
}

/// Values of the intersection still to come from `a[i..]` and `b[j..]` start here.
pub open spec fn pair_bound(a: Seq<u16>, i: int, b: Seq<u16>, j: int) -> int {
    if head(a, i) <= head(b, j) {
        head(b, j)
    } else {
        head(a, i)
    }
}

/// An element below the head of `a[i..]` is at most the element before it.
proof fn lemma_below(a: Seq<u16>, i: int, z: u16)
    requires
        asc16(a),
        0 <= i <= a.len(),
        a.contains(z),
        z < head(a, i),
    ensures
        i > 0,
        z <= a[i - 1],
{
    let j = choose|j: int| 0 <= j < a.len() && a[j] == z;
    if i < a.len() && j >= i {
        assert(a[i] <= a[j]);
    }
}

proof fn lemma_pair_first(out: Seq<u16>, a: Seq<u16>, b: Seq<u16>)
    requires
        asc16(a),
        asc16(b),
    ensures
        done(out, 0, common(a, b), pair_bound(a, 0, b, 0)),
{
    let t = common(a, b);
    lemma_done_start(out, t);
    assert forall|z: u16| #[trigger] t.contains(z) implies (z < 0 <==> z < pair_bound(a, 0, b, 0)) by {
        if z < head(a, 0) {
            lemma_below(a, 0, z);
        }
        if z < head(b, 0) {
            lemma_below(b, 0, z);
        }
    }
    lemma_done_skip(out, 0, t, 0, pair_bound(a, 0, b, 0));
}

/// Two-pointer intersection of `a[i..]` and `b[j..]`, appending at `out[k..]`.
fn intersect_from(
    a: &[u16],
    i0: usize,
    b: &[u16],
    j0: usize,
    out: &mut [u16],
    k0: usize,
) -> (r: usize)
    requires
        asc16(a@),
        asc16(b@),
        i0 <= a.len(),
        j0 <= b.len(),
        done(old(out)@, k0 as int, common(a@, b@), pair_bound(a@, i0 as int, b@, j0 as int)),
        common(a@, b@).len() <= old(out).len(),
    ensures
        final(out).len() == old(out).len(),
        lists(final(out)@, r as int, common(a@, b@)),
        untouched(old(out)@, final(out)@, r as int),
        k0 <= r,
{
    let ghost t = common(a@, b@);
    let mut i: usize = i0;
    let mut j: usize = j0;
    let mut k: usize = k0;
    while i < a.len() && j < b.len()
        invariant
            asc16(a@),
            asc16(b@),
            i <= a.len(),
            j <= b.len(),
            t == common(a@, b@),
            t.len() <= out.len() == old(out).len(),
            untouched(old(out)@, out@, k as int),
            k0 <= k,
            done(out@, k as int, t, pair_bound(a@, i as int, b@, j as int)),
        decreases a.len() - i + b.len() - j,
    {
        let ghost before = out@;
        let ghost bound = pair_bound(a@, i as int, b@, j as int);
        let (x, y): (u16, u16) = (a[i], b[j]);
        if x < y {
            proof {
                assert forall|z: u16| #[trigger] t.contains(z) implies (z < bound <==> z
                    < pair_bound(a@, i + 1, b@, j as int)) by {
                    if z < head(a@, i + 1) {
                        lemma_below(a@, i + 1, z);
                    }
                }
                lemma_done_skip(out@, k as int, t, bound, pair_bound(a@, i + 1, b@, j as int));
            }
            i = i + 1;
        } else if y < x {
            proof {
                assert forall|z: u16| #[trigger] t.contains(z) implies (z < bound <==> z
                    < pair_bound(a@, i as int, b@, j + 1)) by {
                    if z < head(b@, j + 1) {
                        lemma_below(b@, j + 1, z);
                    }
                }
                lemma_done_skip(out@, k as int, t, bound, pair_bound(a@, i as int, b@, j + 1));
            }
            j = j + 1;
        } else {
            proof {
                assert(a@.contains(x) && b@.contains(x));
                lemma_done_room(out@, k as int, t, x as int, x);
                lemma_done_emit(out@, k as int, t, x as int, x);
            }
            out[k] = x;
            proof {
                assert(out@ =~= before.update(k as int, x));
                assert forall|z: u16| #[trigger] t.contains(z) implies (z < x + 1 <==> z
                    < pair_bound(a@, i + 1, b@, j + 1)) by {
                    if z < head(a@, i + 1) {
                        lemma_below(a@, i + 1, z);
                    }
                    if z < head(b@, j + 1) {
                        lemma_below(b@, j + 1, z);
                    }
                }
                lemma_done_skip(out@, k + 1, t, x + 1, pair_bound(a@, i + 1, b@, j + 1));
            }
            k = k + 1;
            i = i + 1;
            j = j + 1;
        }
    }
    proof {
        lemma_done_end(out@, k as int, t);
    }
    k
}

/// Two-pointer intersection: the reference, and the fallback for short inputs.
pub fn intersect_scalar(a: &[u16], b: &[u16], out: &mut [u16]) -> (r: usize)
    requires
        asc16(a@),
        asc16(b@),
        common(a@, b@).len() <= old(out).len(),
    ensures
        final(out).len() == old(out).len(),
        lists(final(out)@, r as int, common(a@, b@)),
        untouched(old(out)@, final(out)@, r as int),
{
    proof {
        lemma_pair_first(out@, a@, b@);
    }
    intersect_from(a, 0, b, 0, out, 0)
}

/// Whether the window `s[f..f + LANES]` holds `v`.
fn window_has(s: &[u16], f: usize, v: u16) -> (r: bool)
    requires
        f + LANES <= s.len(),
    ensures
        r <==> exists|i: int| f <= i < f + LANES && s[i] == v,
{
    let mut i: usize = 0;
    let mut hit: bool = false;
    while i < LANES
        invariant
            i <= LANES,
            f + LANES <= s.len(),
            hit <==> exists|q: int| f <= q < f + i && s[q] == v,
        decreases LANES - i,
    {
        let h: bool = s[f + i] == v;
        hit = hit || h;
        i = i + 1;
    }
    hit
}

/// Advance `f` in windows of [`LANES`] to where `v` would stand in `s`, and
/// tell whether it does.
fn scan_to(s: &[u16], f0: usize, v: u16) -> (r: (usize, bool))
    requires
        asc16(s@),
        f0 <= s.len(),
        forall|j: int| 0 <= j < f0 ==> s[j] < v,
    ensures
        f0 <= r.0 <= s.len(),
        forall|j: int| 0 <= j < r.0 ==> s[j] < v,
        r.1 == s@.contains(v),
{
    let mut f: usize = f0;
    proof {
        lemma_asc16_bound(s@);
    }
    while f + LANES <= s.len() && s[f + LANES - 1] < v
        invariant
            f0 <= f <= s.len() <= 65536,
            asc16(s@),
            forall|j: int| 0 <= j < f ==> s[j] < v,
        decreases s.len() - f,
    {
        f = f + LANES;
    }
    if f + LANES <= s.len() {
        let hit: bool = window_has(s, f, v);
        assert(hit == s@.contains(v)) by {
            if s@.contains(v) {
                let j = choose|j: int| 0 <= j < s.len() && s@[j] == v;
                assert(s[f + 7] >= v);
                assert(f <= j < f + LANES);
            }
        }
        (f, hit)
    } else {
        while f < s.len() && s[f] < v
            invariant
                f0 <= f <= s.len(),
                asc16(s@),
                forall|j: int| 0 <= j < f ==> s[j] < v,
            decreases s.len() - f,
        {
            f = f + 1;
        }
        let hit: bool = f < s.len() && s[f] == v;
        assert(hit == s@.contains(v)) by {
            if !hit {
                lemma_absent(s@, f as int, v);
            }
        }
        (f, hit)
    }
}

/// Broadcast scan: for each value of `rare`, advance a window of `freq`.
fn intersect_scan(rare: &[u16], freq: &[u16], out: &mut [u16]) -> (r: usize)
    requires
        asc16(rare@),
        asc16(freq@),
        common(rare@, freq@).len() <= old(out).len(),
    ensures
        final(out).len() == old(out).len(),
        lists(final(out)@, r as int, common(rare@, freq@)),
        untouched(old(out)@, final(out)@, r as int),
{
    let ghost t = common(rare@, freq@);
    let mut i: usize = 0;
    let mut f: usize = 0;
    let mut k: usize = 0;
    proof {
        lemma_asc16_bound(freq@);
        lemma_done_first(out@, rare@, t);
    }
    while i < rare.len()
        invariant
            asc16(rare@),
            asc16(freq@),
            freq.len() <= 65536,
            i <= rare.len(),
            f <= freq.len(),
            t == common(rare@, freq@),
            t.len() <= out.len() == old(out).len(),
            untouched(old(out)@, out@, k as int),
            forall|j: int| 0 <= j < f ==> freq[j] < head(rare@, i as int),
            done(out@, k as int, t, head(rare@, i as int)),
        decreases rare.len() - i,
    {
        let v: u16 = rare[i];
        if freq.len() == 0 || v > freq[freq.len() - 1] {
            proof {
                assert forall|z: u16| #[trigger] t.contains(z) implies z < v by {
                    let j = choose|j: int| 0 <= j < freq.len() && freq@[j] == z;
                    assert(freq[j] <= freq[freq.len() - 1]);
                }
                lemma_done_skip(out@, k as int, t, v as int, 65536);
                lemma_done_end(out@, k as int, t);
            }
            return k;
        }
        let (f2, hit): (usize, bool) = scan_to(freq, f, v);
        f = f2;
        let ghost before = out@;
        if hit {
            proof {
                assert(rare@.contains(v));
                lemma_done_room(out@, k as int, t, v as int, v);
                lemma_done_emit(out@, k as int, t, v as int, v);
            }
            out[k] = v;
            assert(out@ =~= before.update(k as int, v));
            k = k + 1;
        } else {
            proof {
                lemma_done_skip(out@, k as int, t, v as int, v + 1);
            }
        }
        proof {
            lemma_done_gap(out@, k as int, rare@, i as int, t);
        }
        i = i + 1;
    }
    proof {
        lemma_done_end(out@, k as int, t);
    }
    k
}

/// Position of `v` in the ascending `s[lo..hi]`, or where it would be inserted.
fn search(s: &[u16], lo0: usize, hi0: usize, v: u16) -> (r: (bool, usize))
    requires
        asc16(s@),
        lo0 <= hi0 <= s.len(),
    ensures
        lo0 <= r.1 <= hi0,
        r.0 ==> r.1 < hi0 && s[r.1 as int] == v,
        !r.0 ==> forall|i: int| lo0 <= i < hi0 ==> s[i] != v,
        forall|i: int| lo0 <= i < r.1 ==> s[i] < v,
        forall|i: int| r.1 <= i < hi0 ==> s[i] >= v,
{
    let mut lo: usize = lo0;
    let mut hi: usize = hi0;
    while lo < hi
        invariant
            asc16(s@),
            lo0 <= lo <= hi <= hi0 <= s.len(),
            forall|i: int| lo0 <= i < lo ==> s[i] < v,
            forall|i: int| hi <= i < hi0 ==> s[i] > v,
        decreases hi - lo,
    {
        let mid: usize = lo + (hi - lo) / 2;
        if s[mid] < v {
            lo = mid + 1;
        } else if s[mid] > v {
            hi = mid;
        } else {
            return (true, mid);
        }
    }
    (false, lo)
}

/// Whether the ascending `s` holds `v`.
pub fn array_contains(s: &[u16], v: u16) -> (r: bool)
    requires
        asc16(s@),
    ensures
        r == s@.contains(v),
{
    let (hit, p): (bool, usize) = search(s, 0, s.len(), v);
    assert(hit ==> s@[p as int] == v);
    hit
}

/// Heavily skewed intersection: for each value of `rare`, gallop (exponential
/// bracket, then binary search) into `freq`.
fn intersect_gallop(rare: &[u16], freq: &[u16], out: &mut [u16]) -> (r: usize)
    requires
        asc16(rare@),
        asc16(freq@),
        common(rare@, freq@).len() <= old(out).len(),
    ensures
        final(out).len() == old(out).len(),
        lists(final(out)@, r as int, common(rare@, freq@)),
        untouched(old(out)@, final(out)@, r as int),
{
    let ghost t = common(rare@, freq@);
    let mut i: usize = 0;
    let mut base: usize = 0;
    let mut k: usize = 0;
    proof {
        lemma_asc16_bound(freq@);
        lemma_done_first(out@, rare@, t);
    }
    while i < rare.len()
        invariant
            asc16(rare@),
            asc16(freq@),
            freq.len() <= 65536,
            i <= rare.len(),
            base <= freq.len(),
            t == common(rare@, freq@),
            t.len() <= out.len() == old(out).len(),
            untouched(old(out)@, out@, k as int),
            forall|j: int| 0 <= j < base ==> freq[j] < head(rare@, i as int),
            done(out@, k as int, t, head(rare@, i as int)),
        decreases rare.len() - i,
    {
        let v: u16 = rare[i];
        if base >= freq.len() {
            proof {
                assert forall|z: u16| #[trigger] t.contains(z) implies z < v by {
                    let j = choose|j: int| 0 <= j < freq.len() && freq@[j] == z;
                    assert(freq[j] < head(rare@, i as int));
                }
                lemma_done_skip(out@, k as int, t, v as int, 65536);
                lemma_done_end(out@, k as int, t);
            }
            return k;
        }
        let mut step: usize = 1;
        let mut lo: usize = base;
        while base + step < freq.len() && freq[base + step] < v
            invariant
                asc16(freq@),
                freq.len() <= 65536,
                base <= lo < freq.len(),
                1 <= step,
                step <= 2 * 65536,
                lo <= base + step,
                lo == base + step / 2,
                lo > base ==> freq[lo as int] < v,
                base < freq.len(),
            decreases 0x4_0000 - step,
        {
            lo = base + step;
            step = step * 2;
        }
        let mut hi: usize = base + step + 1;
        if hi > freq.len() {
            hi = freq.len();
        }
        let (hit, p): (bool, usize) = search(freq, lo, hi, v);
        proof {
            assert forall|j: int| 0 <= j < p implies freq[j] < v by {
                if j < base {
                    assert(freq[j] < head(rare@, i as int));
                } else if j < lo {
                    assert(freq[j] <= freq[lo as int]);
                }
            }
            assert(hit == freq@.contains(v)) by {
                if hit {
                    assert(freq@[p as int] == v);
                } else if freq@.contains(v) {
                    let j = choose|j: int| 0 <= j < freq.len() && freq@[j] == v;
                    assert(j >= p);
                    if j >= hi {
                        assert(freq[base + step] <= freq[j]);
                    }
                }
            }
        }
        let ghost before = out@;
        if hit {
            proof {
                assert(rare@.contains(v));
                lemma_done_room(out@, k as int, t, v as int, v);
                lemma_done_emit(out@, k as int, t, v as int, v);
            }
            out[k] = v;
            assert(out@ =~= before.update(k as int, v));
            k = k + 1;
            base = p + 1;
        } else {
            proof {
                lemma_done_skip(out@, k as int, t, v as int, v + 1);
            }
            base = p;
        }
        proof {
            lemma_done_gap(out@, k as int, rare@, i as int, t);
        }
        i = i + 1;
    }
    proof {
        lemma_done_end(out@, k as int, t);
    }
    k
}

/// How far a block comparison has come: all of the blocks at `ia` and `ib` up to
/// `lane` of the first.
spec fn lane_bound(a: Seq<u16>, ia: int, lane: int, b: Seq<u16>, ib: int) -> int {
    let start = pair_bound(a, ia, b, ib);
    let reach = if head(a, ia + lane) <= b[ib + 7] {
        head(a, ia + lane)
    } else {
        b[ib + 7] + 1
    };
    if start <= reach {
        reach
    } else {
        start
    }
}

/// Balanced intersection: compare a block of each side all against all, emit the
/// matched values of `a`, and advance the block whose maximum is smaller (both
/// on a tie). The two-pointer merge finishes the tail.
fn intersect_merge(a: &[u16], b: &[u16], out: &mut [u16]) -> (r: usize)
    requires
        asc16(a@),
        asc16(b@),
        common(a@, b@).len() <= old(out).len(),
    ensures
        final(out).len() == old(out).len(),
        lists(final(out)@, r as int, common(a@, b@)),
        untouched(old(out)@, final(out)@, r as int),
{
    let ghost t = common(a@, b@);
    let mut ia: usize = 0;
    let mut ib: usize = 0;
    let mut k: usize = 0;
    proof {
        lemma_asc16_bound(a@);
        lemma_asc16_bound(b@);
        lemma_pair_first(out@, a@, b@);
    }
    while ia + LANES <= a.len() && ib + LANES <= b.len()
        invariant
            asc16(a@),
            asc16(b@),
            a.len() <= 65536,
            b.len() <= 65536,
            ia <= a.len(),
            ib <= b.len(),
            t == common(a@, b@),
            t.len() <= out.len() == old(out).len(),
            untouched(old(out)@, out@, k as int),
            done(out@, k as int, t, pair_bound(a@, ia as int, b@, ib as int)),
        decreases a.len() - ia + b.len() - ib,
    {
        let amax: u16 = a[ia + LANES - 1];
        let bmax: u16 = b[ib + LANES - 1];
        let mut lane: usize = 0;
        assert(lane_bound(a@, ia as int, 0, b@, ib as int) == pair_bound(
            a@,
            ia as int,
            b@,
            ib as int,
        )) by {
            assert(b[ib as int] <= bmax);
        }
        while lane < LANES
            invariant
                asc16(a@),
                asc16(b@),
                lane <= LANES,
                ia + LANES <= a.len() <= 65536,
                ib + LANES <= b.len() <= 65536,
                t == common(a@, b@),
                t.len() <= out.len() == old(out).len(),
                untouched(old(out)@, out@, k as int),
                bmax == b[ib + 7],
                done(out@, k as int, t, lane_bound(a@, ia as int, lane as int, b@, ib as int)),
            decreases LANES - lane,
        {
            let x: u16 = a[ia + lane];
            let ghost before = out@;
            let ghost bound = lane_bound(a@, ia as int, lane as int, b@, ib as int);
            let ghost next = lane_bound(a@, ia as int, lane + 1, b@, ib as int);
            if window_has(b, ib, x) {
                proof {
                    let q = choose|q: int| ib <= q < ib + LANES && b[q] == x;
                    assert(b@[q] == x && a@[ia + lane] == x);
                    assert(b@.contains(x) && a@.contains(x));
                    assert(b[ib as int] <= x <= bmax);
                    assert(a[ia as int] <= x);
                    lemma_done_room(out@, k as int, t, bound, x);
                    lemma_done_emit(out@, k as int, t, bound, x);
                }
                out[k] = x;
                proof {
                    assert(out@ =~= before.update(k as int, x));
                    assert forall|z: u16| #[trigger] t.contains(z) implies (z < x + 1 <==> z
                        < next) by {
                        if z < head(a@, ia + lane + 1) {
                            lemma_below(a@, ia + lane + 1, z);
                        }
                    }
                    lemma_done_skip(out@, k + 1, t, x + 1, next);
                }
                k = k + 1;
            } else {
                proof {
                    assert forall|z: u16| #[trigger] t.contains(z) implies (z < bound <==> z
                        < next) by {
                        if bound <= z < next {
                            lemma_below(a@, ia + lane + 1, z);
                            assert(z == x);
                            let q = choose|q: int| 0 <= q < b.len() && b@[q] == z;
                            assert(b[ib as int] <= z <= bmax);
                            assert(ib <= q < ib + LANES);
                            assert(b[q] == x);
                        }
                    }
                    lemma_done_skip(out@, k as int, t, bound, next);
                }
            }
            lane = lane + 1;
        }
        let ghost bound = lane_bound(a@, ia as int, 8, b@, ib as int);
        let ghost (ia0, ib0) = (ia as int, ib as int);
        if amax <= bmax {
            ia = ia + LANES;
        }
        if bmax <= amax {
            ib = ib + LANES;
        }
        proof {
            let next = pair_bound(a@, ia as int, b@, ib as int);
            assert(a[ia0] <= amax && b[ib0] <= bmax);
            assert forall|z: u16| #[trigger] t.contains(z) implies (z < bound <==> z < next) by {
                if z < head(a@, ia0 + 8) {
                    lemma_below(a@, ia0 + 8, z);
                }
                if z < head(b@, ib0 + 8) {
                    lemma_below(b@, ib0 + 8, z);
                }
                assert(head(a@, ia0 + 8) > amax);
                assert(head(b@, ib0 + 8) > bmax);
            }
            lemma_done_skip(out@, k as int, t, bound, next);
        }
    }
    intersect_from(a, ia, b, ib, out, k)
}

/// Floor of the base-2 logarithm; 0 for 0.
fn log2(n: usize) -> (r: usize)
    ensures
        n == 0 ==> r == 0,
        n > 0 ==> vstd::arithmetic::power2::pow2(r as nat) <= n < vstd::arithmetic::power2::pow2(
            (r + 1) as nat,
        ),
        r <= n,
{
    let mut m: usize = n;
    let mut r: usize = 0;
    let ghost mut p: int = 1;
    proof {
        vstd::arithmetic::power2::lemma2_to64();
    }
    while m > 1
        invariant
            p == vstd::arithmetic::power2::pow2(r as nat),
            p >= 1,
            n > 0 ==> m >= 1,
            n == 0 ==> m == 0 && r == 0,
            m * p <= n < (m + 1) * p || n == 0,
            r + m <= n + 1,
            n > 0 ==> r + m <= n,
        decreases m,
    {
        proof {
            vstd::arithmetic::power2::lemma_pow2_unfold((r + 1) as nat);
            assert((m / 2) * (2 * p) <= m * p && (m + 1) * p <= (m / 2 + 1) * (2 * p)) by (nonlinear_arith)
                requires
                    p >= 1,
                    m >= 0,
            ;
            p = 2 * p;
        }
        m = m / 2;
        r = r + 1;
    }
    proof {
        vstd::arithmetic::power2::lemma_pow2_unfold((r + 1) as nat);
        assert(n > 0 ==> m * p == p && (m + 1) * p == 2 * p);
    }
    r
}

/// `a` and `b` in common, written to `out` in ascending order; returns their number.
///
/// Disjoint ranges are rejected at once. Heavy skew gallops, but only where its
/// `rare * log2(freq)` steps clear the scan's linear advance by a margin.
pub fn array_intersect(a: &[u16], b: &[u16], out: &mut [u16]) -> (r: usize)
    requires
        asc16(a@),
        asc16(b@),
        common(a@, b@).len() <= old(out).len(),
    ensures
        final(out).len() == old(out).len(),
        lists(final(out)@, r as int, common(a@, b@)),
        untouched(old(out)@, final(out)@, r as int),
{
    proof {
        lemma_asc16_bound(a@);
        lemma_asc16_bound(b@);
    }
    if a.len() == 0 || b.len() == 0 || a[a.len() - 1] < b[0] || b[b.len() - 1] < a[0] {
        proof {
            let t = common(a@, b@);
            assert forall|z: u16| !t.contains(z) by {
                if t.contains(z) {
                    let i = choose|i: int| 0 <= i < a.len() && a@[i] == z;
                    let j = choose|j: int| 0 <= j < b.len() && b@[j] == z;
                    assert(a[0] <= a[i] <= a[a.len() - 1]);
                    assert(b[0] <= b[j] <= b[b.len() - 1]);
                }
            }
            lemma_done_start(out@, t);
            lemma_done_skip(out@, 0, t, 0, 65536);
            lemma_done_end(out@, 0, t);
        }
        return 0;
    }
    let (rare, freq): (&[u16], &[u16]) = if a.len() <= b.len() {
        (a, b)
    } else {
        (b, a)
    };
    assert(common(rare@, freq@) =~= common(a@, b@));
    let (lo, hi): (usize, usize) = (rare.len(), freq.len());
    let lg: u64 = log2(hi) as u64;
    let steps: u64 = if lg == 0 {
        1
    } else {
        lg
    };
    assert(0 <= lo * steps <= 65536 * 65536) by (nonlinear_arith)
        requires
            0 <= lo <= 65536,
            0 <= steps <= 65536,
    ;
    if (lo as u64) * steps * 8 < hi as u64 {
        return intersect_gallop(rare, freq, out);
    }
    if lo >= LANES && hi <= lo * MERGE_MAX_RATIO {
        return intersect_merge(a, b, out);
    }
    intersect_scan(rare, freq, out)
}

// --- union -----------------------------------------------------------------------

/// The values of `a` or `b`.
pub open spec fn either(a: Seq<u16>, b: Seq<u16>) -> Set<u16> {
    a.to_set().union(b.to_set())
}

/// Everything still to come from `c`, `a[i..]` and `b[j..]` is at or past `bound`,
/// and everything else of the union is below it.
spec fn left(
    t: Set<u16>,
    bound: int,
    c: Seq<u16>,
    a: Seq<u16>,
    i: int,
    b: Seq<u16>,
    j: int,
) -> bool {
    forall|x: u16| #[trigger]
        t.contains(x) && x >= bound ==> c.contains(x) || x >= head(a, i) && a.contains(x) || x >= head(
            b,
            j,
        ) && b.contains(x)
}

/// Non-descending values.
pub open spec fn nondesc(s: Seq<u16>) -> bool {
    forall|i: int, j: int| 0 <= i <= j < s.len() ==> s[i] <= s[j]
}

/// The element of `c` at `p`, or the end of the value space.
fn head_of(c: &[u16], p: usize) -> (r: u32)
    requires
        p <= c.len(),
    ensures
        r == head(c@, p as int),
{
    if p < c.len() {
        c[p] as u32
    } else {
        65536
    }
}

/// Finish a merge: three-way merge of the non-descending `carry` with `a[i..]` and
/// `b[j..]`, dropping what was already emitted.
fn union_tail(
    carry: &[u16],
    a: &[u16],
    i0: usize,
    b: &[u16],
    j0: usize,
    out: &mut [u16],
    k0: usize,
    bound0: u32,
) -> (r: usize)
    requires
        nondesc(carry@),
        asc16(a@),
        asc16(b@),
        i0 <= a.len(),
        j0 <= b.len(),
        forall|p: int| 0 <= p < carry.len() ==> #[trigger] either(a@, b@).contains(carry@[p]),
        bound0 <= head(a@, i0 as int) + 1,
        bound0 <= head(b@, j0 as int) + 1,
        forall|p: int| 0 <= p < carry.len() ==> bound0 <= carry[p] + 1,
        left(either(a@, b@), bound0 as int, carry@, a@, i0 as int, b@, j0 as int),
        done(old(out)@, k0 as int, either(a@, b@), bound0 as int),
        either(a@, b@).len() <= old(out).len(),
    ensures
        final(out).len() == old(out).len(),
        lists(final(out)@, r as int, either(a@, b@)),
{
    let ghost t = either(a@, b@);
    let (mut p, mut i, mut j, mut k): (usize, usize, usize, usize) = (0, i0, j0, k0);
    let mut bound: u32 = bound0;
    assert(carry@.skip(0) =~= carry@);
    while p < carry.len() || i < a.len() || j < b.len()
        invariant
            nondesc(carry@),
            asc16(a@),
            asc16(b@),
            t == either(a@, b@),
            t.len() <= out.len() == old(out).len(),
            p <= carry.len(),
            i <= a.len(),
            j <= b.len(),
            forall|q: int| 0 <= q < carry.len() ==> #[trigger] t.contains(carry@[q]),
            bound <= head(carry@, p as int) + 1,
            bound <= head(a@, i as int) + 1,
            bound <= head(b@, j as int) + 1,
            left(t, bound as int, carry@.skip(p as int), a@, i as int, b@, j as int),
            done(out@, k as int, t, bound as int),
        decreases carry.len() - p + a.len() - i + b.len() - j,
    {
        let (cv, av, bv): (u32, u32, u32) = (head_of(carry, p), head_of(a, i), head_of(b, j));
        let m: u32 = if av <= bv {
            av
        } else {
            bv
        };
        let best: u32 = if cv <= m {
            cv
        } else {
            m
        };
        let v: u16 = best as u16;
        let ghost before = out@;
        let ghost (p1, i1, j1) = (
            if cv == best { p + 1 } else { p as int },
            if av == best { i + 1 } else { i as int },
            if bv == best { j + 1 } else { j as int },
        );
        proof {
            assert(t.contains(v)) by {
                if cv == best {
                    assert(t.contains(carry@[p as int]));
                } else if av == best {
                    assert(a@.contains(a@[i as int]));
                } else {
                    assert(b@.contains(b@[j as int]));
                }
            }
            assert forall|x: u16| bound <= x < v implies !(#[trigger] t.contains(x)) by {
                if t.contains(x) && bound <= x && x < v {
                    if carry@.skip(p as int).contains(x) {
                        let q = choose|q: int|
                            0 <= q < carry.len() - p && carry@.skip(p as int)[q] == x;
                        assert(carry[p as int] <= carry[p + q]);
                    }
                }
            }
        }
        if bound <= best {
            proof {
                lemma_done_room(out@, k as int, t, bound as int, v);
                lemma_done_emit(out@, k as int, t, bound as int, v);
            }
            out[k] = v;
            assert(out@ =~= before.update(k as int, v));
            k = k + 1;
            bound = best + 1;
        }
        proof {
            assert(bound == v + 1);
            assert forall|x: u16| #[trigger] t.contains(x) && x >= bound implies carry@.skip(
                p1,
            ).contains(x) || x >= head(a@, i1) && a@.contains(x) || x >= head(b@, j1) && b@.contains(
                x,
            ) by {
                if carry@.skip(p as int).contains(x) {
                    let q = choose|q: int| 0 <= q < carry.len() - p && carry@.skip(p as int)[q] == x;
                    if p1 == p {
                        assert(carry@.skip(p1)[q] == x);
                    } else {
                        assert(q > 0);
                        assert(carry@.skip(p1)[q - 1] == x);
                    }
                } else if x >= head(a@, i as int) && a@.contains(x) {
                    if x < head(a@, i1) {
                        lemma_below(a@, i1, x);
                    }
                } else {
                    if x < head(b@, j1) {
                        lemma_below(b@, j1, x);
                    }
                }
            }
        }
        if cv == best {
            p = p + 1;
        }
        if av == best {
            i = i + 1;
        }
        if bv == best {
            j = j + 1;
        }
    }
    proof {
        assert forall|x: u16| #[trigger] t.contains(x) implies (x < bound <==> x < 65536) by {
            if x >= bound {
                assert(carry@.skip(p as int).len() == 0);
            }
        }
        lemma_done_skip(out@, k as int, t, bound as int, 65536);
        lemma_done_end(out@, k as int, t);
    }
    k
}

/// Two-pointer merge with duplicates dropped.
pub fn union_scalar(a: &[u16], b: &[u16], out: &mut [u16]) -> (r: usize)
    requires
        asc16(a@),
        asc16(b@),
        either(a@, b@).len() <= old(out).len(),
    ensures
        final(out).len() == old(out).len(),
        lists(final(out)@, r as int, either(a@, b@)),
{
    let ghost t = either(a@, b@);
    let (mut i, mut j, mut k): (usize, usize, usize) = (0, 0, 0);
    let ghost mut bound: int = 0;
    proof {
        lemma_done_start(out@, t);
        assert forall|x: u16| #[trigger] t.contains(x) && x >= 0 implies x >= head(a@, 0) && a@.contains(
            x,
        ) || x >= head(b@, 0) && b@.contains(x) by {
            if a@.contains(x) && x < head(a@, 0) {
                lemma_below(a@, 0, x);
            }
            if b@.contains(x) && x < head(b@, 0) {
                lemma_below(b@, 0, x);
            }
        }
    }
    while i < a.len() || j < b.len()
        invariant
            asc16(a@),
            asc16(b@),
            t == either(a@, b@),
            t.len() <= out.len() == old(out).len(),
            i <= a.len(),
            j <= b.len(),
            bound <= head(a@, i as int),
            bound <= head(b@, j as int),
            left(t, bound, Seq::empty(), a@, i as int, b@, j as int),
            done(out@, k as int, t, bound),
        decreases a.len() - i + b.len() - j,
    {
        let (av, bv): (u32, u32) = (head_of(a, i), head_of(b, j));
        let best: u32 = if av <= bv {
            av
        } else {
            bv
        };
        let v: u16 = best as u16;
        let ghost before = out@;
        let ghost (i1, j1) = (
            if av == best { i + 1 } else { i as int },
            if bv == best { j + 1 } else { j as int },
        );
        proof {
            assert(t.contains(v)) by {
                if av == best {
                    assert(a@.contains(a@[i as int]));
                } else {
                    assert(b@.contains(b@[j as int]));
                }
            }
            lemma_done_room(out@, k as int, t, bound, v);
            lemma_done_emit(out@, k as int, t, bound, v);
        }
        out[k] = v;
        proof {
            assert(out@ =~= before.update(k as int, v));
            assert forall|x: u16| #[trigger] t.contains(x) && x >= v + 1 implies x >= head(a@, i1)
                && a@.contains(x) || x >= head(b@, j1) && b@.contains(x) by {
                if x >= head(a@, i as int) && a@.contains(x) {
                    if x < head(a@, i1) {
                        lemma_below(a@, i1, x);
                    }
                } else {
                    if x < head(b@, j1) {
                        lemma_below(b@, j1, x);
                    }
                }
            }
            bound = v + 1;
        }
        k = k + 1;
        if av == best {
            i = i + 1;
        }
        if bv == best {
            j = j + 1;
        }
    }
    proof {
        assert forall|x: u16| #[trigger] t.contains(x) implies (x < bound <==> x < 65536) by {}
        lemma_done_skip(out@, k as int, t, bound, 65536);
        lemma_done_end(out@, k as int, t);
    }
    k
}

/// Merge two non-descending blocks of eight into sixteen non-descending values.
fn merge_blocks(x: &[u16], i: usize, y: &[u16]) -> (m: Vec<u16>)
    requires
        i + LANES <= x.len(),
        y.len() == LANES,
        nondesc(x@.subrange(i as int, i + 8)),
        nondesc(y@),
    ensures
        m.len() == 16,
        nondesc(m@),
        forall|v: u16| #[trigger] m@.contains(v) <==> x@.subrange(i as int, i + 8).contains(v) || y@.contains(v),
        m[7] <= x[i + 7],
        m[7] <= y[7],
{
    let ghost xs = x@.subrange(i as int, i + 8);
    let mut m: Vec<u16> = Vec::with_capacity(16);
    let (mut p, mut q): (usize, usize) = (0, 0);
    while p < LANES || q < LANES
        invariant
            i + LANES <= x.len(),
            y.len() == LANES,
            xs == x@.subrange(i as int, i + 8),
            nondesc(xs),
            nondesc(y@),
            p <= LANES,
            q <= LANES,
            m.len() == p + q,
            nondesc(m@),
            forall|r: int| 0 <= r < m.len() ==> (p < LANES ==> #[trigger] m[r] <= xs[p as int]) && (q < LANES
                ==> m[r] <= y[q as int]),
            forall|v: u16| #[trigger] m@.contains(v) <==> xs.take(p as int).contains(v) || y@.take(
                q as int,
            ).contains(v),
            m.len() > 7 ==> m[7] <= xs[7] && m[7] <= y[7],
        decreases 2 * LANES - p - q,
    {
        let take_x: bool = q >= LANES || p < LANES && x[i + p] <= y[q];
        let ghost before = m@;
        if take_x {
            let v: u16 = x[i + p];
            m.push(v);
            proof {
                assert(v == xs[p as int]);
                lemma_push_contains(before, v);
                assert(xs.take(p + 1) =~= xs.take(p as int).push(v));
                lemma_push_contains(xs.take(p as int), v);
            }
            p = p + 1;
        } else {
            let v: u16 = y[q];
            m.push(v);
            proof {
                lemma_push_contains(before, v);
                assert(y@.take(q + 1) =~= y@.take(q as int).push(v));
                lemma_push_contains(y@.take(q as int), v);
            }
            q = q + 1;
        }
    }
    assert(xs.take(8) =~= xs);
    assert(y@.take(8) =~= y@);
    m
}

proof fn lemma_push_contains(s: Seq<u16>, v: u16)
    ensures
        forall|x: u16| #[trigger] s.push(v).contains(x) <==> s.contains(x) || x == v,
{
    assert forall|x: u16| #[trigger] s.push(v).contains(x) <==> s.contains(x) || x == v by {
        if s.contains(x) {
            let i = choose|i: int| 0 <= i < s.len() && s[i] == x;
            assert(s.push(v)[i] == x);
        }
        if x == v {
            assert(s.push(v)[s.len() as int] == v);
        }
        if s.push(v).contains(x) && x != v {
            let i = choose|i: int| 0 <= i < s.push(v).len() && s.push(v)[i] == x;
            assert(s[i] == x);
        }
    }
}

/// Emit the low half of a merged block, each value once; `bound` is one past the
/// last value emitted so far.
fn emit_low(m: &Vec<u16>, out: &mut [u16], k0: usize, bound0: u32, t: Ghost<Set<u16>>) -> (r: (
    usize,
    u32,
))
    requires
        m.len() == 16,
        nondesc(m@),
        bound0 <= m[0] + 1,
        done(old(out)@, k0 as int, t@, bound0 as int),
        t@.len() <= old(out).len(),
        forall|q: int| 0 <= q < 16 ==> #[trigger] t@.contains(m@[q]),
        forall|x: u16| #[trigger] t@.contains(x) && x >= bound0 ==> m@.contains(x) || x >= m[7],
    ensures
        final(out).len() == old(out).len(),
        done(final(out)@, r.0 as int, t@, r.1 as int),
        r.1 == m[7] + 1,
{
    let (mut k, mut bound): (usize, u32) = (k0, bound0);
    let mut l: usize = 0;
    while l < LANES
        invariant
            l <= LANES,
            m.len() == 16,
            nondesc(m@),
            t@.len() <= out.len() == old(out).len(),
            done(out@, k as int, t@, bound as int),
            bound0 <= bound,
            bound <= m[l as int] + 1,
            l > 0 ==> bound == m[l - 1] + 1,
            forall|q: int| 0 <= q < 16 ==> #[trigger] t@.contains(m@[q]),
            forall|x: u16| #[trigger] t@.contains(x) && x >= bound0 ==> m@.contains(x) || x >= m[7],
        decreases LANES - l,
    {
        let v: u16 = m[l];
        let ghost before = out@;
        if bound <= v as u32 {
            proof {
                assert(t@.contains(m@[l as int]));
                assert forall|x: u16| bound <= x < v implies !(#[trigger] t@.contains(x)) by {
                    if t@.contains(x) && bound <= x && x < v {
                        assert(m[7] >= v);
                        assert(m@.contains(x));
                        let q = choose|q: int| 0 <= q < 16 && m@[q] == x;
                        if q < l {
                            assert(m[q] <= m[l - 1]);
                        } else {
                            assert(m[l as int] <= m[q]);
                        }
                    }
                }
                lemma_done_room(out@, k as int, t@, bound as int, v);
                lemma_done_emit(out@, k as int, t@, bound as int, v);
            }
            out[k] = v;
            assert(out@ =~= before.update(k as int, v));
            k = k + 1;
            bound = v as u32 + 1;
        }
        l = l + 1;
    }
    (k, bound)
}

/// The high half of a merged block.
fn high_half(m: &Vec<u16>) -> (r: Vec<u16>)
    requires
        m.len() == 16,
    ensures
        r@ == m@.subrange(8, 16),
{
    let mut r: Vec<u16> = Vec::with_capacity(LANES);
    let mut q: usize = LANES;
    while q < 16
        invariant
            8 <= q <= 16,
            m.len() == 16,
            r@ == m@.subrange(8, q as int),
        decreases 16 - q,
    {
        r.push(m[q]);
        assert(r@ =~= m@.subrange(8, q + 1));
        q = q + 1;
    }
    r
}

/// After the low half of `m` (a block at `x[i..]` merged with `carry`) is out, the
/// high half is the carry.
proof fn lemma_block_left(
    t: Set<u16>,
    bound: int,
    carry: Seq<u16>,
    m: Seq<u16>,
    a: Seq<u16>,
    i: int,
    b: Seq<u16>,
    j: int,
)
    requires
        asc16(a),
        asc16(b),
        0 <= i,
        i + 8 <= a.len(),
        0 <= j <= b.len(),
        m.len() == 16,
        nondesc(m),
        forall|v: u16| #[trigger] m.contains(v) <==> a.subrange(i, i + 8).contains(v) || carry.contains(v),
        left(t, bound, carry, a, i, b, j),
        bound <= m[7] + 1,
    ensures
        left(t, m[7] + 1, m.subrange(8, 16), a, i + 8, b, j),
{
    assert forall|x: u16| #[trigger] t.contains(x) && x >= m[7] + 1 implies m.subrange(8, 16).contains(
        x,
    ) || x >= head(a, i + 8) && a.contains(x) || x >= head(b, j) && b.contains(x) by {
        if x >= head(a, i) && a.contains(x) && x < head(a, i + 8) {
            let q = choose|q: int| 0 <= q < a.len() && a[q] == x;
            assert(i <= q < i + 8);
            assert(a.subrange(i, i + 8)[q - i] == x);
            assert(a.subrange(i, i + 8).contains(x));
        }
        if m.contains(x) {
            let q = choose|q: int| 0 <= q < 16 && m[q] == x;
            if q < 8 {
                assert(m[q] <= m[7]);
            }
            assert(m.subrange(8, 16)[q - 8] == x);
        }
    }
}

/// One block of `x` merged into the carry, its low half emitted.
fn merge_step(
    x: &[u16],
    i: usize,
    y: &[u16],
    j: usize,
    carry: &Vec<u16>,
    out: &mut [u16],
    k: usize,
    bound: u32,
) -> (r: (Vec<u16>, usize, u32))
    requires
        asc16(x@),
        asc16(y@),
        i + LANES <= x.len(),
        j <= y.len(),
        carry.len() == 8,
        nondesc(carry@),
        carry[7] <= head(y@, j as int),
        forall|q: int| 0 <= q < 8 ==> #[trigger] either(x@, y@).contains(carry@[q]),
        forall|q: int| 0 <= q < 8 ==> carry@[q] < head(y@, j as int) || carry@[q] < x[i as int],
        bound <= carry[0] + 1,
        bound <= x[i as int] + 1,
        left(either(x@, y@), bound as int, carry@, x@, i as int, y@, j as int),
        done(old(out)@, k as int, either(x@, y@), bound as int),
        either(x@, y@).len() <= old(out).len(),
    ensures
        final(out).len() == old(out).len(),
        r.0.len() == 8,
        nondesc(r.0@),
        forall|q: int| 0 <= q < 8 ==> #[trigger] either(x@, y@).contains(r.0@[q]),
        forall|q: int| 0 <= q < 8 ==> r.0@[q] < head(y@, j as int) || r.0@[q] < head(x@, i + 8),
        r.2 <= r.0[0] + 1,
        r.2 <= head(x@, i + 8) + 1,
        r.2 <= head(y@, j as int) + 1,
        left(either(x@, y@), r.2 as int, r.0@, x@, i + 8, y@, j as int),
        done(final(out)@, r.1 as int, either(x@, y@), r.2 as int),
{
    let ghost t = either(x@, y@);
    let ghost xs = x@.subrange(i as int, i + 8);
    let m: Vec<u16> = merge_blocks(x, i, carry.as_slice());
    proof {
        assert forall|q: int| 0 <= q < 16 implies #[trigger] t.contains(m@[q]) by {
            assert(m@.contains(m@[q]));
            if xs.contains(m@[q]) {
                let p = choose|p: int| 0 <= p < 8 && xs[p] == m@[q];
                assert(x@[i + p] == m@[q]);
                assert(x@.contains(m@[q]));
            } else {
                let p = choose|p: int| 0 <= p < 8 && carry@[p] == m@[q];
                assert(t.contains(carry@[p]));
            }
        }
        assert(bound <= m[0] + 1) by {
            assert(m@.contains(m@[0]));
            if xs.contains(m@[0]) {
                let p = choose|p: int| 0 <= p < 8 && xs[p] == m@[0];
                assert(x[i as int] <= x[i + p]);
            } else {
                let p = choose|p: int| 0 <= p < 8 && carry@[p] == m@[0];
                assert(carry[0] <= carry[p]);
            }
        }
        assert forall|v: u16| #[trigger] t.contains(v) && v >= bound implies m@.contains(v) || v >= m[7] by {
            if !carry@.contains(v) && !xs.contains(v) {
                if v >= head(x@, i as int) && x@.contains(v) {
                    let q = choose|q: int| 0 <= q < x.len() && x@[q] == v;
                    if q < i + 8 {
                        assert(xs[q - i] == v);
                    } else {
                        assert(x[i + 7] <= x[q]);
                    }
                } else {
                    assert(carry[7] <= v);
                }
            }
        }
    }
    let (k1, bound1): (usize, u32) = emit_low(&m, out, k, bound, Ghost(t));
    let hi: Vec<u16> = high_half(&m);
    proof {
        lemma_block_left(t, bound as int, carry@, m@, x@, i as int, y@, j as int);
        assert forall|q: int| 0 <= q < 8 implies #[trigger] t.contains(hi@[q]) by {
            assert(t.contains(m@[q + 8]));
        }
        assert forall|q: int| 0 <= q < 8 implies hi@[q] < head(y@, j as int) || hi@[q] < head(x@, i + 8) by {
            assert(m@.contains(m@[q + 8]));
            if xs.contains(m@[q + 8]) {
                let p = choose|p: int| 0 <= p < 8 && xs[p] == m@[q + 8];
                assert(x[i + p] < head(x@, i + 8));
            } else {
                let p = choose|p: int| 0 <= p < 8 && carry@[p] == m@[q + 8];
            }
        }
    }
    (hi, k1, bound1)
}

/// Balanced union: merge a block of each side, emit the low half (duplicates
/// dropped), carry the high half, and load the side whose next block starts
/// lower. A three-way scalar merge finishes the tail.
fn union_merge(a: &[u16], b: &[u16], out: &mut [u16]) -> (r: usize)
    requires
        asc16(a@),
        asc16(b@),
        LANES <= a.len(),
        LANES <= b.len(),
        either(a@, b@).len() <= old(out).len(),
    ensures
        final(out).len() == old(out).len(),
        lists(final(out)@, r as int, either(a@, b@)),
{
    let ghost t = either(a@, b@);
    proof {
        lemma_asc16_bound(a@);
        lemma_asc16_bound(b@);
        assert(either(b@, a@) =~= t);
        lemma_done_start(out@, t);
    }
    // The first block of `b` is the first carry.
    let mut carry: Vec<u16> = Vec::with_capacity(LANES);
    let mut q: usize = 0;
    while q < LANES
        invariant
            q <= LANES <= b.len(),
            carry@ == b@.take(q as int),
        decreases LANES - q,
    {
        carry.push(b[q]);
        assert(carry@ =~= b@.take(q + 1));
        q = q + 1;
    }
    let (mut i, mut j, mut k): (usize, usize, usize) = (0, LANES, 0);
    let mut bound: u32 = 0;
    proof {
        assert forall|p: int| 0 <= p < 8 implies #[trigger] t.contains(carry@[p]) by {
            assert(b@[p] == carry@[p]);
            assert(b@.contains(carry@[p]));
        }
        assert forall|x: u16| #[trigger] t.contains(x) && x >= 0 implies carry@.contains(x) || x >= head(
            a@,
            0,
        ) && a@.contains(x) || x >= head(b@, 8) && b@.contains(x) by {
            if a@.contains(x) && x < head(a@, 0) {
                lemma_below(a@, 0, x);
            }
            if b@.contains(x) && x < head(b@, 8) {
                let p = choose|p: int| 0 <= p < b.len() && b@[p] == x;
                if p >= 8 {
                    assert(b[8] <= b[p]);
                }
                assert(carry@[p] == x);
            }
        }
    }
    let (c, k1, b1): (Vec<u16>, usize, u32) = merge_step(a, i, b, j, &carry, out, k, bound);
    carry = c;
    k = k1;
    bound = b1;
    i = LANES;
    while i + LANES <= a.len() && j + LANES <= b.len()
        invariant
            asc16(a@),
            asc16(b@),
            a.len() <= 65536,
            b.len() <= 65536,
            t == either(a@, b@),
            t == either(b@, a@),
            t.len() <= out.len() == old(out).len(),
            i <= a.len(),
            j <= b.len(),
            carry.len() == 8,
            nondesc(carry@),
            forall|p: int| 0 <= p < 8 ==> #[trigger] t.contains(carry@[p]),
            forall|p: int| 0 <= p < 8 ==> carry@[p] < head(a@, i as int) || carry@[p] < head(b@, j as int),
            bound <= carry[0] + 1,
            bound <= head(a@, i as int) + 1,
            bound <= head(b@, j as int) + 1,
            left(t, bound as int, carry@, a@, i as int, b@, j as int),
            done(out@, k as int, t, bound as int),
        decreases a.len() - i + b.len() - j,
    {
        if a[i] <= b[j] {
            let (c, k1, b1): (Vec<u16>, usize, u32) = merge_step(a, i, b, j, &carry, out, k, bound);
            carry = c;
            k = k1;
            bound = b1;
            i = i + LANES;
        } else {
            assert(left(t, bound as int, carry@, b@, j as int, a@, i as int));
            let (c, k1, b1): (Vec<u16>, usize, u32) = merge_step(b, j, a, i, &carry, out, k, bound);
            carry = c;
            k = k1;
            bound = b1;
            j = j + LANES;
            assert(left(t, bound as int, carry@, a@, i as int, b@, j as int));
        }
    }
    union_tail(carry.as_slice(), a, i, b, j, out, k, bound)
}

/// `a` and `b` merged into `out` in ascending order, each value once; returns the
/// number of values.
pub fn array_union(a: &[u16], b: &[u16], out: &mut [u16]) -> (r: usize)
    requires
        asc16(a@),
        asc16(b@),
        either(a@, b@).len() <= old(out).len(),
    ensures
        final(out).len() == old(out).len(),
        lists(final(out)@, r as int, either(a@, b@)),
{
    proof {
        lemma_asc16_bound(a@);
        lemma_asc16_bound(b@);
    }
    let (lo, hi): (usize, usize) = if a.len() <= b.len() {
        (a.len(), b.len())
    } else {
        (b.len(), a.len())
    };
    if lo >= LANES && hi <= lo * MERGE_MAX_RATIO {
        return union_merge(a, b, out);
    }
    union_scalar(a, b, out)
}

// --- difference ------------------------------------------------------------------

/// The values of `a` that are not in `b`.
pub open spec fn without(a: Seq<u16>, b: Seq<u16>) -> Set<u16> {
    a.to_set().difference(b.to_set())
}

/// Two-pointer difference of `a[i..]` and `b[j..]`, appending at `out[k..]`.
fn diff_from(
    a: &[u16],
    i0: usize,
    b: &[u16],
    j0: usize,
    out: &mut [u16],
    k0: usize,
) -> (r: usize)
    requires
        asc16(a@),
        asc16(b@),
        i0 <= a.len(),
        j0 <= b.len(),
        j0 > 0 ==> b[j0 - 1] < head(a@, i0 as int),
        done(old(out)@, k0 as int, without(a@, b@), head(a@, i0 as int)),
        without(a@, b@).len() <= old(out).len(),
    ensures
        final(out).len() == old(out).len(),
        lists(final(out)@, r as int, without(a@, b@)),
{
    let ghost t = without(a@, b@);
    let (mut i, mut j, mut k): (usize, usize, usize) = (i0, j0, k0);
    while i < a.len()
        invariant
            asc16(a@),
            asc16(b@),
            i <= a.len(),
            j <= b.len(),
            t == without(a@, b@),
            t.len() <= out.len() == old(out).len(),
            j > 0 ==> b[j - 1] < head(a@, i as int),
            done(out@, k as int, t, head(a@, i as int)),
        decreases a.len() - i + b.len() - j,
    {
        let v: u16 = a[i];
        let ghost before = out@;
        if j == b.len() || v < b[j] {
            proof {
                lemma_absent(b@, j as int, v);
                assert(a@.contains(a@[i as int]));
                lemma_done_room(out@, k as int, t, v as int, v);
                lemma_done_emit(out@, k as int, t, v as int, v);
            }
            out[k] = v;
            proof {
                assert(out@ =~= before.update(k as int, v));
                lemma_done_gap(out@, k + 1, a@, i as int, t);
            }
            k = k + 1;
            i = i + 1;
        } else if v > b[j] {
            j = j + 1;
        } else {
            proof {
                assert(b@.contains(b@[j as int]));
                lemma_done_skip(out@, k as int, t, v as int, v + 1);
                lemma_done_gap(out@, k as int, a@, i as int, t);
            }
            i = i + 1;
            j = j + 1;
        }
    }
    proof {
        lemma_done_end(out@, k as int, t);
    }
    k
}

/// Two-pointer difference: the reference, and the fallback.
pub fn diff_scalar(a: &[u16], b: &[u16], out: &mut [u16]) -> (r: usize)
    requires
        asc16(a@),
        asc16(b@),
        without(a@, b@).len() <= old(out).len(),
    ensures
        final(out).len() == old(out).len(),
        lists(final(out)@, r as int, without(a@, b@)),
{
    proof {
        lemma_done_first(out@, a@, without(a@, b@));
    }
    diff_from(a, 0, b, 0, out, 0)
}

/// Broadcast scan: keep each value of `a` that the advancing window of `b` misses.
fn diff_scan(a: &[u16], b: &[u16], out: &mut [u16]) -> (r: usize)
    requires
        asc16(a@),
        asc16(b@),
        without(a@, b@).len() <= old(out).len(),
    ensures
        final(out).len() == old(out).len(),
        lists(final(out)@, r as int, without(a@, b@)),
{
    let ghost t = without(a@, b@);
    let (mut i, mut f, mut k): (usize, usize, usize) = (0, 0, 0);
    proof {
        lemma_done_first(out@, a@, t);
    }
    while i < a.len()
        invariant
            asc16(a@),
            asc16(b@),
            i <= a.len(),
            f <= b.len(),
            t == without(a@, b@),
            t.len() <= out.len() == old(out).len(),
            forall|j: int| 0 <= j < f ==> b[j] < head(a@, i as int),
            done(out@, k as int, t, head(a@, i as int)),
        decreases a.len() - i,
    {
        let v: u16 = a[i];
        let mut hit: bool = false;
        if b.len() > 0 && v <= b[b.len() - 1] {
            let (f2, h): (usize, bool) = scan_to(b, f, v);
            f = f2;
            hit = h;
        } else {
            assert(!b@.contains(v)) by {
                if b@.contains(v) {
                    let j = choose|j: int| 0 <= j < b.len() && b@[j] == v;
                    assert(b[j] <= b[b.len() - 1]);
                }
            }
        }
        let ghost before = out@;
        if hit {
            proof {
                lemma_done_skip(out@, k as int, t, v as int, v + 1);
            }
        } else {
            proof {
                assert(a@.contains(a@[i as int]));
                lemma_done_room(out@, k as int, t, v as int, v);
                lemma_done_emit(out@, k as int, t, v as int, v);
            }
            out[k] = v;
            assert(out@ =~= before.update(k as int, v));
            k = k + 1;
        }
        proof {
            lemma_done_gap(out@, k as int, a@, i as int, t);
        }
        i = i + 1;
    }
    proof {
        lemma_done_end(out@, k as int, t);
    }
    k
}

/// Emit the values of the block at `a[ia..]` that are not marked and that `b[ib..]`
/// does not hold.
fn emit_unmatched(
    a: &[u16],
    ia: usize,
    b: &[u16],
    ib: usize,
    matched: &[bool; 8],
    out: &mut [u16],
    k0: usize,
) -> (r: usize)
    requires
        asc16(a@),
        asc16(b@),
        ia + LANES <= a.len(),
        ib <= b.len(),
        forall|l: int|
            0 <= l < 8 ==> #[trigger] matched[l] == b@.take(ib as int).contains(a@[ia + l]),
        done(old(out)@, k0 as int, without(a@, b@), a[ia as int] as int),
        without(a@, b@).len() <= old(out).len(),
    ensures
        final(out).len() == old(out).len(),
        done(final(out)@, r as int, without(a@, b@), head(a@, ia + 8)),
{
    let ghost t = without(a@, b@);
    let mut k: usize = k0;
    let mut l: usize = 0;
    while l < LANES
        invariant
            asc16(a@),
            asc16(b@),
            l <= LANES,
            ia + LANES <= a.len(),
            ib <= b.len(),
            t == without(a@, b@),
            t.len() <= out.len() == old(out).len(),
            forall|q: int|
                0 <= q < 8 ==> #[trigger] matched[q] == b@.take(ib as int).contains(a@[ia + q]),
            done(out@, k as int, t, head(a@, ia + l)),
        decreases LANES - l,
    {
        let x: u16 = a[ia + l];
        let ghost before = out@;
        let mut hit: bool = matched[l];
        if !hit {
            let (h, p): (bool, usize) = search(b, ib, b.len(), x);
            hit = h;
            proof {
                if h {
                    assert(b@[p as int] == x);
                }
            }
        }
        assert(hit == b@.contains(x)) by {
            assert(matched[l as int] == b@.take(ib as int).contains(a@[ia + l]));
            if b@.contains(x) {
                let q = choose|q: int| 0 <= q < b.len() && b@[q] == x;
                if q < ib {
                    assert(b@.take(ib as int)[q] == x);
                }
            }
            if b@.take(ib as int).contains(x) {
                let q = choose|q: int| 0 <= q < ib && b@.take(ib as int)[q] == x;
                assert(b@[q] == x);
            }
        }
        if hit {
            proof {
                lemma_done_skip(out@, k as int, t, x as int, x + 1);
            }
        } else {
            proof {
                assert(a@.contains(a@[ia + l]));
                lemma_done_room(out@, k as int, t, x as int, x);
                lemma_done_emit(out@, k as int, t, x as int, x);
            }
            out[k] = x;
            assert(out@ =~= before.update(k as int, x));
            k = k + 1;
        }
        proof {
            lemma_done_gap(out@, k as int, a@, ia + l, t);
        }
        l = l + 1;
    }
    k
}

/// Mark the values of the block at `a[ia..]` that the block at `b[ib..]` holds.
fn mark_block(a: &[u16], ia: usize, b: &[u16], ib: usize, matched: &mut [bool; 8])
    requires
        ia + LANES <= a.len(),
        ib + LANES <= b.len(),
        forall|l: int|
            0 <= l < 8 ==> #[trigger] old(matched)[l] == b@.take(ib as int).contains(a@[ia + l]),
    ensures
        forall|l: int|
            0 <= l < 8 ==> #[trigger] final(matched)[l] == b@.take(ib + 8).contains(a@[ia + l]),
{
    let mut l: usize = 0;
    while l < LANES
        invariant
            l <= LANES,
            ia + LANES <= a.len(),
            ib + LANES <= b.len(),
            forall|q: int|
                l <= q < 8 ==> #[trigger] matched[q] == b@.take(ib as int).contains(a@[ia + q]),
            forall|q: int| 0 <= q < l ==> #[trigger] matched[q] == b@.take(ib + 8).contains(a@[ia + q]),
        decreases LANES - l,
    {
        let x: u16 = a[ia + l];
        let h: bool = window_has(b, ib, x);
        assert((b@.take(ib as int).contains(x) || h) == b@.take(ib + 8).contains(x)) by {
            if b@.take(ib as int).contains(x) {
                let q = choose|q: int| 0 <= q < ib && b@.take(ib as int)[q] == x;
                assert(b@.take(ib + 8)[q] == x);
            }
            if h {
                let q = choose|q: int| ib <= q < ib + LANES && b[q] == x;
                assert(b@.take(ib + 8)[q] == x);
            }
            let wide = b@.take(ib + 8);
            if wide.contains(x) {
                let q = choose|q: int| 0 <= q < wide.len() && wide[q] == x;
                if q < ib {
                    assert(b@.take(ib as int)[q] == x);
                } else {
                    assert(b[q] == x);
                }
            }
        }
        assert(matched[l as int] == b@.take(ib as int).contains(a@[ia + l]));
        matched[l] = matched[l] || h;
        l = l + 1;
    }
}

/// Balanced difference: the marks of a block of `a` are gathered over every block
/// of `b` it spans, and its unmarked values are emitted when `a` advances, by
/// which point every value of `b` up to the block's maximum was seen. A scalar
/// merge finishes the tail.
fn diff_merge(a: &[u16], b: &[u16], out: &mut [u16]) -> (r: usize)
    requires
        asc16(a@),
        asc16(b@),
        LANES <= a.len(),
        without(a@, b@).len() <= old(out).len(),
    ensures
        final(out).len() == old(out).len(),
        lists(final(out)@, r as int, without(a@, b@)),
{
    let ghost t = without(a@, b@);
    let (mut ia, mut ib, mut k): (usize, usize, usize) = (0, 0, 0);
    let mut matched: [bool; 8] = [false; 8];
    proof {
        lemma_asc16_bound(a@);
        lemma_asc16_bound(b@);
        lemma_done_first(out@, a@, t);
    }
    while ib + LANES <= b.len()
        invariant
            asc16(a@),
            asc16(b@),
            a.len() <= 65536,
            b.len() <= 65536,
            ia + LANES <= a.len(),
            ib <= b.len(),
            t == without(a@, b@),
            t.len() <= out.len() == old(out).len(),
            forall|l: int|
                0 <= l < 8 ==> #[trigger] matched[l] == b@.take(ib as int).contains(a@[ia + l]),
            ib > 0 ==> b[ib - 1] <= a[ia + 7],
            done(out@, k as int, t, a[ia as int] as int),
        decreases a.len() - ia + b.len() - ib,
    {
        mark_block(a, ia, b, ib, &mut matched);
        let amax: u16 = a[ia + LANES - 1];
        let bmax: u16 = b[ib + LANES - 1];
        if amax <= bmax {
            k = emit_unmatched(a, ia, b, ib + LANES, &matched, out, k);
            ia = ia + LANES;
            if amax == bmax {
                ib = ib + LANES;
            }
            if ia + LANES > a.len() {
                return diff_from(a, ia, b, ib, out, k);
            }
            matched = [false; 8];
            proof {
                assert forall|l: int| 0 <= l < 8 implies #[trigger] matched[l] == b@.take(
                    ib as int,
                ).contains(a@[ia + l]) by {
                    if b@.take(ib as int).contains(a@[ia + l]) {
                        let q = choose|q: int| 0 <= q < ib && b@.take(ib as int)[q] == a@[ia + l];
                        assert(b[q] <= b[ib - 1]);
                        assert(amax < a[ia + l]);
                    }
                }
            }
        } else {
            ib = ib + LANES;
        }
    }
    diff_tail(a, ia, b, ib, &matched, out, k)
}

/// Finish a difference when `b` has no full block left: the block at `a[ia..]` is
/// pending, marked against `b[..ib]` only.
fn diff_tail(
    a: &[u16],
    ia: usize,
    b: &[u16],
    ib: usize,
    matched: &[bool; 8],
    out: &mut [u16],
    k: usize,
) -> (r: usize)
    requires
        asc16(a@),
        asc16(b@),
        ia + LANES <= a.len(),
        ib <= b.len(),
        forall|l: int|
            0 <= l < 8 ==> #[trigger] matched[l] == b@.take(ib as int).contains(a@[ia + l]),
        ib > 0 ==> b[ib - 1] <= a[ia + 7],
        done(old(out)@, k as int, without(a@, b@), a[ia as int] as int),
        without(a@, b@).len() <= old(out).len(),
    ensures
        final(out).len() == old(out).len(),
        lists(final(out)@, r as int, without(a@, b@)),
{
    let k1: usize = emit_unmatched(a, ia, b, ib, matched, out, k);
    diff_from(a, ia + LANES, b, ib, out, k1)
}

/// `a` without `b`, written to `out` in ascending order; returns the number of values.
pub fn array_diff(a: &[u16], b: &[u16], out: &mut [u16]) -> (r: usize)
    requires
        asc16(a@),
        asc16(b@),
        without(a@, b@).len() <= old(out).len(),
    ensures
        final(out).len() == old(out).len(),
        lists(final(out)@, r as int, without(a@, b@)),
{
    proof {
        lemma_asc16_bound(a@);
        lemma_asc16_bound(b@);
    }
    let (lo, hi): (usize, usize) = if a.len() <= b.len() {
        (a.len(), b.len())
    } else {
        (b.len(), a.len())
    };
    if lo >= LANES && hi <= lo * MERGE_MAX_RATIO {
        return diff_merge(a, b, out);
    }
    diff_scan(a, b, out)
}

} // verus!
