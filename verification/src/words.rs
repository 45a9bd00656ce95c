//! Bitmap containers, word by word.
use vstd::prelude::*;

use crate::container::{runs_set, Bitmap, Run};
use crate::format::BITMAP_WORDS;
use crate::model::{asc16, lemma_asc16_len};

verus! {

/// Bit `i` of a word.
pub open spec fn wbit(w: u64, i: int) -> bool {
    (w >> (i as u64)) & 1 == 1
}

/// Value `x` is in the bitmap.
pub open spec fn has_bit(b: Seq<u64>, x: u16) -> bool {
    wbit(b[x as int / 64], x as int % 64)
}

/// The values of a bitmap.
pub open spec fn bits_set(b: Seq<u64>) -> Set<u16> {
    Set::new(|x: u16| has_bit(b, x))
}

/// Ones among the low `k` bits of a word.
pub open spec fn ones_below(w: u64, k: int) -> nat
    decreases k,
{
    if k <= 0 {
        0
    } else {
        ones_below(w, k - 1) + if wbit(w, k - 1) {
            1nat
        } else {
            0
        }
    }
}

/// Number of ones in a word.
pub open spec fn ones(w: u64) -> nat {
    ones_below(w, 64)
}

/// Ones in the first `k` words.
pub open spec fn ones_upto(b: Seq<u64>, k: int) -> nat
    decreases k,
{
    if k <= 0 {
        0
    } else {
        ones_upto(b, k - 1) + ones(b[k - 1])
    }
}

/// The values below `k` that are in the bitmap, ascending.
pub open spec fn bits_seq(b: Seq<u64>, k: int) -> Seq<u16>
    decreases k,
{
    if k <= 0 {
        Seq::empty()
    } else if has_bit(b, (k - 1) as u16) {
        bits_seq(b, k - 1).push((k - 1) as u16)
    } else {
        bits_seq(b, k - 1)
    }
}

pub proof fn lemma_bits_seq(b: Seq<u64>, k: int)
    requires
        0 <= k <= 65536,
    ensures
        asc16(bits_seq(b, k)),
        forall|x: u16|
            #![trigger bits_seq(b, k).contains(x)]
            bits_seq(b, k).contains(x) <==> x < k && has_bit(b, x),
    decreases k,
{
    if k > 0 {
        lemma_bits_seq(b, k - 1);
        let p = bits_seq(b, k - 1);
        let s = bits_seq(b, k);
        assert forall|i: int| 0 <= i < p.len() implies p[i] < k - 1 by {
            assert(p.contains(p[i]));
        }
        assert forall|x: u16| s.contains(x) <==> x < k && has_bit(b, x) by {
            if s.contains(x) {
                let i = choose|i: int| 0 <= i < s.len() && s[i] == x;
                if i < p.len() {
                    assert(p.contains(x));
                }
            }
            if x < k && has_bit(b, x) {
                if x < k - 1 {
                    assert(p.contains(x));
                    let i = choose|i: int| 0 <= i < p.len() && p[i] == x;
                    assert(s[i] == x);
                } else {
                    assert(s[p.len() as int] == x);
                }
            }
        }
    }
}

proof fn lemma_bits_seq_len(b: Seq<u64>, w: int, j: int)
    requires
        0 <= w < 1024,
        0 <= j <= 64,
    ensures
        bits_seq(b, 64 * w + j).len() == bits_seq(b, 64 * w).len() + ones_below(b[w], j),
    decreases j,
{
    if j > 0 {
        lemma_bits_seq_len(b, w, j - 1);
        let x = (64 * w + j - 1) as u16;
        assert(x as int / 64 == w && x as int % 64 == j - 1);
    }
}

proof fn lemma_ones_upto(b: Seq<u64>, w: int)
    requires
        0 <= w <= 1024,
    ensures
        bits_seq(b, 64 * w).len() == ones_upto(b, w),
    decreases w,
{
    if w > 0 {
        lemma_ones_upto(b, w - 1);
        lemma_bits_seq_len(b, w - 1, 64);
    }
}

/// The bitmap's set is listed by [`bits_seq`], and its size is the number of ones.
pub proof fn lemma_bits_set(b: Seq<u64>)
    ensures
        bits_set(b).finite(),
        bits_set(b).len() == ones_upto(b, 1024),
        asc16(bits_seq(b, 65536)),
        bits_seq(b, 65536).to_set() == bits_set(b),
        ones_upto(b, 1024) <= 65536,
{
    lemma_bits_seq(b, 65536);
    let s = bits_seq(b, 65536);
    lemma_asc16_len(s);
    assert(s.to_set() =~= bits_set(b));
    lemma_ones_upto(b, 1024);
    lemma_bits_seq_bound(b, 65536);
}

proof fn lemma_bits_seq_bound(b: Seq<u64>, k: int)
    requires
        0 <= k,
    ensures
        bits_seq(b, k).len() <= k,
    decreases k,
{
    if k > 0 {
        lemma_bits_seq_bound(b, k - 1);
    }
}

/// Bits of the bitwise operators.
proof fn lemma_wbit_ops(a: u64, b: u64, i: int)
    requires
        0 <= i < 64,
    ensures
        wbit(a & b, i) == (wbit(a, i) && wbit(b, i)),
        wbit(a | b, i) == (wbit(a, i) || wbit(b, i)),
        wbit(a & !b, i) == (wbit(a, i) && !wbit(b, i)),
{
    let k = i as u64;
    assert(((a & b) >> k) & 1 == 1 <==> ((a >> k) & 1 == 1 && (b >> k) & 1 == 1)) by (bit_vector);
    assert(((a | b) >> k) & 1 == 1 <==> ((a >> k) & 1 == 1 || (b >> k) & 1 == 1)) by (bit_vector);
    assert(((a & !b) >> k) & 1 == 1 <==> ((a >> k) & 1 == 1 && (b >> k) & 1 != 1)) by (bit_vector);
}

/// Bits of the masks that single values and ranges are set with.
proof fn lemma_wbit_masks(m: int, i: int)
    requires
        0 <= m < 64,
        0 <= i < 64,
    ensures
        wbit(1u64 << (m as u64), i) == (i == m),
        wbit(u64::MAX << (m as u64), i) == (i >= m),
        wbit(u64::MAX >> ((63 - m) as u64), i) == (i <= m),
        wbit(u64::MAX, i),
        !wbit(0, i),
{
    let (k, n) = (i as u64, m as u64);
    let r = (63 - m) as u64;
    assert(((1u64 << n) >> k) & 1 == 1 <==> k == n) by (bit_vector)
        requires
            n < 64,
            k < 64,
    ;
    assert(((0xFFFF_FFFF_FFFF_FFFFu64 << n) >> k) & 1 == 1 <==> k >= n) by (bit_vector)
        requires
            n < 64,
            k < 64,
    ;
    assert(((0xFFFF_FFFF_FFFF_FFFFu64 >> r) >> k) & 1 == 1 <==> k + r <= 63) by (bit_vector)
        requires
            r < 64,
            k < 64,
    ;
    assert((0xFFFF_FFFF_FFFF_FFFFu64 >> k) & 1 == 1) by (bit_vector)
        requires
            k < 64,
    ;
    assert((0u64 >> k) & 1 == 0) by (bit_vector);
}

/// A zero word has no bits.
pub proof fn lemma_wbit_zero(i: int)
    requires
        0 <= i < 64,
    ensures
        !wbit(0, i),
{
    lemma_wbit_masks(0, i);
}

/// Clearing the lowest set bit of a word.
pub proof fn lemma_wbit_lowest(w: u64, i: int)
    requires
        w != 0,
        0 <= i < 64,
    ensures
        vstd::std_specs::bits::u64_trailing_zeros(w) < 64,
        wbit(w & ((w - 1) as u64), i) == (wbit(w, i) && i != vstd::std_specs::bits::u64_trailing_zeros(w)),
        wbit(w, i) ==> i >= vstd::std_specs::bits::u64_trailing_zeros(w),
        wbit(w, vstd::std_specs::bits::u64_trailing_zeros(w) as int),
{
    vstd::std_specs::bits::axiom_u64_trailing_zeros(w);
    let t = vstd::std_specs::bits::u64_trailing_zeros(w) as u64;
    let s = (64 - t) as u64;
    let k = i as u64;
    assert(((w & ((w - 1) as u64)) >> k) & 1 == 1 <==> ((w >> k) & 1 == 1 && k != t)) by (bit_vector)
        requires
            w != 0,
            k < 64,
            t < 64,
            s == 64 - t,
            w << s == 0,
            (w >> t) & 1 == 1,
    ;
    if i < t {
        assert((w >> k) & 1 == 0);
    }
}

/// `u64::count_ones`: the number of ones in the binary representation of the word.
pub assume_specification[ u64::count_ones ](w: u64) -> (r: u32)
    ensures
        r == ones(w),
;

proof fn lemma_ones_bound_below(w: u64, k: int)
    requires
        0 <= k,
    ensures
        ones_below(w, k) <= k,
    decreases k,
{
    if k > 0 {
        lemma_ones_bound_below(w, k - 1);
    }
}

proof fn lemma_ones_bound(w: u64)
    ensures
        ones(w) <= 64,
{
    lemma_ones_bound_below(w, 64);
}

/// Counting one more word.
pub proof fn lemma_ones_step(b: Seq<u64>, k: int)
    requires
        0 <= k,
    ensures
        ones_upto(b, k + 1) == ones_upto(b, k) + ones(b[k]),
        ones(b[k]) <= 64,
{
    lemma_ones_bound(b[k]);
}

/// The count depends on the counted words alone.
proof fn lemma_ones_upto_eq(a: Seq<u64>, b: Seq<u64>, k: int)
    requires
        forall|i: int| 0 <= i < k ==> a[i] == b[i],
    ensures
        ones_upto(a, k) == ones_upto(b, k),
    decreases k,
{
    if k > 0 {
        lemma_ones_upto_eq(a, b, k - 1);
    }
}

// --- word ops ------------------------------------------------------------------

/// `dst &= src`.
pub fn and(dst: &mut Bitmap, src: &Bitmap)
    ensures
        bits_set(final(dst)@) == bits_set(old(dst)@).intersect(bits_set(src@)),
{
    let mut i: usize = 0;
    while i < BITMAP_WORDS
        invariant
            i <= BITMAP_WORDS,
            forall|k: int| i <= k < BITMAP_WORDS ==> dst[k] == old(dst)[k],
            forall|k: int| 0 <= k < i ==> dst[k] == old(dst)[k] & src[k],
        decreases BITMAP_WORDS - i,
    {
        dst[i] = dst[i] & src[i];
        i = i + 1;
    }
    assert forall|x: u16| #[trigger] has_bit(dst@, x) == bits_set(old(dst)@).intersect(bits_set(src@)).contains(x) by {
        lemma_wbit_ops(old(dst)[x as int / 64], src[x as int / 64], x as int % 64);
    }
    assert(bits_set(dst@) =~= bits_set(old(dst)@).intersect(bits_set(src@)));
}

/// `dst |= src`.
pub fn or(dst: &mut Bitmap, src: &Bitmap)
    ensures
        bits_set(final(dst)@) == bits_set(old(dst)@).union(bits_set(src@)),
{
    let mut i: usize = 0;
    while i < BITMAP_WORDS
        invariant
            i <= BITMAP_WORDS,
            forall|k: int| i <= k < BITMAP_WORDS ==> dst[k] == old(dst)[k],
            forall|k: int| 0 <= k < i ==> dst[k] == old(dst)[k] | src[k],
        decreases BITMAP_WORDS - i,
    {
        dst[i] = dst[i] | src[i];
        i = i + 1;
    }
    assert forall|x: u16| #[trigger] has_bit(dst@, x) == bits_set(old(dst)@).union(bits_set(src@)).contains(x) by {
        lemma_wbit_ops(old(dst)[x as int / 64], src[x as int / 64], x as int % 64);
    }
    assert(bits_set(dst@) =~= bits_set(old(dst)@).union(bits_set(src@)));
}

/// `dst &= !src`.
pub fn andnot(dst: &mut Bitmap, src: &Bitmap)
    ensures
        bits_set(final(dst)@) == bits_set(old(dst)@).difference(bits_set(src@)),
{
    let mut i: usize = 0;
    while i < BITMAP_WORDS
        invariant
            i <= BITMAP_WORDS,
            forall|k: int| i <= k < BITMAP_WORDS ==> dst[k] == old(dst)[k],
            forall|k: int| 0 <= k < i ==> dst[k] == old(dst)[k] & !src[k],
        decreases BITMAP_WORDS - i,
    {
        dst[i] = dst[i] & !src[i];
        i = i + 1;
    }
    assert forall|x: u16| #[trigger] has_bit(dst@, x) == bits_set(old(dst)@).difference(bits_set(src@)).contains(x) by {
        lemma_wbit_ops(old(dst)[x as int / 64], src[x as int / 64], x as int % 64);
    }
    assert(bits_set(dst@) =~= bits_set(old(dst)@).difference(bits_set(src@)));
}

/// `dst = src`.
pub fn copy(dst: &mut Bitmap, src: &Bitmap)
    ensures
        final(dst)@ == src@,
{
    let mut i: usize = 0;
    while i < BITMAP_WORDS
        invariant
            i <= BITMAP_WORDS,
            forall|k: int| 0 <= k < i ==> dst[k] == src[k],
        decreases BITMAP_WORDS - i,
    {
        dst[i] = src[i];
        i = i + 1;
    }
    assert(dst@ =~= src@);
}

/// `dst = 0`.
pub fn clear(dst: &mut Bitmap)
    ensures
        bits_set(final(dst)@) == Set::<u16>::empty(),
{
    let mut i: usize = 0;
    while i < BITMAP_WORDS
        invariant
            i <= BITMAP_WORDS,
            forall|k: int| 0 <= k < i ==> dst[k] == 0,
        decreases BITMAP_WORDS - i,
    {
        dst[i] = 0;
        i = i + 1;
    }
    assert forall|x: u16| !(#[trigger] has_bit(dst@, x)) by {
        lemma_wbit_masks(0, x as int % 64);
    }
    assert(bits_set(dst@) =~= Set::<u16>::empty());
}

/// Number of values in the bitmap.
pub fn popcount(b: &Bitmap) -> (r: u32)
    ensures
        r == bits_set(b@).len(),
{
    let mut c: u32 = 0;
    let mut i: usize = 0;
    while i < BITMAP_WORDS
        invariant
            i <= BITMAP_WORDS,
            c == ones_upto(b@, i as int),
            c <= 64 * i,
        decreases BITMAP_WORDS - i,
    {
        proof {
            lemma_ones_bound(b[i as int]);
        }
        c = c + b[i].count_ones();
        i = i + 1;
    }
    proof {
        lemma_bits_set(b@);
    }
    c
}

// --- fused op and count ----------------------------------------------------------

/// `dst &= src`, returning the number of values left.
pub fn and_count(dst: &mut Bitmap, src: &Bitmap) -> (r: u32)
    ensures
        bits_set(final(dst)@) == bits_set(old(dst)@).intersect(bits_set(src@)),
        r == bits_set(final(dst)@).len(),
{
    let mut c: u32 = 0;
    let mut i: usize = 0;
    while i < BITMAP_WORDS
        invariant
            i <= BITMAP_WORDS,
            c == ones_upto(dst@, i as int),
            c <= 64 * i,
            forall|k: int| i <= k < BITMAP_WORDS ==> dst[k] == old(dst)[k],
            forall|k: int| 0 <= k < i ==> dst[k] == old(dst)[k] & src[k],
        decreases BITMAP_WORDS - i,
    {
        let ghost before = dst@;
        dst[i] = dst[i] & src[i];
        proof {
            lemma_ones_upto_eq(before, dst@, i as int);
            lemma_ones_bound(dst[i as int]);
        }
        c = c + dst[i].count_ones();
        i = i + 1;
    }
    assert forall|x: u16| #[trigger] has_bit(dst@, x) == bits_set(old(dst)@).intersect(bits_set(src@)).contains(x) by {
        lemma_wbit_ops(old(dst)[x as int / 64], src[x as int / 64], x as int % 64);
    }
    assert(bits_set(dst@) =~= bits_set(old(dst)@).intersect(bits_set(src@)));
    proof {
        lemma_bits_set(dst@);
    }
    c
}

/// `dst |= src`, returning the number of values.
pub fn or_count(dst: &mut Bitmap, src: &Bitmap) -> (r: u32)
    ensures
        bits_set(final(dst)@) == bits_set(old(dst)@).union(bits_set(src@)),
        r == bits_set(final(dst)@).len(),
{
    let mut c: u32 = 0;
    let mut i: usize = 0;
    while i < BITMAP_WORDS
        invariant
            i <= BITMAP_WORDS,
            c == ones_upto(dst@, i as int),
            c <= 64 * i,
            forall|k: int| i <= k < BITMAP_WORDS ==> dst[k] == old(dst)[k],
            forall|k: int| 0 <= k < i ==> dst[k] == old(dst)[k] | src[k],
        decreases BITMAP_WORDS - i,
    {
        let ghost before = dst@;
        dst[i] = dst[i] | src[i];
        proof {
            lemma_ones_upto_eq(before, dst@, i as int);
            lemma_ones_bound(dst[i as int]);
        }
        c = c + dst[i].count_ones();
        i = i + 1;
    }
    assert forall|x: u16| #[trigger] has_bit(dst@, x) == bits_set(old(dst)@).union(bits_set(src@)).contains(x) by {
        lemma_wbit_ops(old(dst)[x as int / 64], src[x as int / 64], x as int % 64);
    }
    assert(bits_set(dst@) =~= bits_set(old(dst)@).union(bits_set(src@)));
    proof {
        lemma_bits_set(dst@);
    }
    c
}

/// `dst &= !src`, returning the number of values left.
pub fn andnot_count(dst: &mut Bitmap, src: &Bitmap) -> (r: u32)
    ensures
        bits_set(final(dst)@) == bits_set(old(dst)@).difference(bits_set(src@)),
        r == bits_set(final(dst)@).len(),
{
    let mut c: u32 = 0;
    let mut i: usize = 0;
    while i < BITMAP_WORDS
        invariant
            i <= BITMAP_WORDS,
            c == ones_upto(dst@, i as int),
            c <= 64 * i,
            forall|k: int| i <= k < BITMAP_WORDS ==> dst[k] == old(dst)[k],
            forall|k: int| 0 <= k < i ==> dst[k] == old(dst)[k] & !src[k],
        decreases BITMAP_WORDS - i,
    {
        let ghost before = dst@;
        dst[i] = dst[i] & !src[i];
        proof {
            lemma_ones_upto_eq(before, dst@, i as int);
            lemma_ones_bound(dst[i as int]);
        }
        c = c + dst[i].count_ones();
        i = i + 1;
    }
    assert forall|x: u16| #[trigger] has_bit(dst@, x) == bits_set(old(dst)@).difference(bits_set(src@)).contains(x) by {
        lemma_wbit_ops(old(dst)[x as int / 64], src[x as int / 64], x as int % 64);
    }
    assert(bits_set(dst@) =~= bits_set(old(dst)@).difference(bits_set(src@)));
    proof {
        lemma_bits_set(dst@);
    }
    c
}

/// `dst = a & !b`, returning the number of values.
pub fn andnot_into_count(dst: &mut Bitmap, a: &Bitmap, b: &Bitmap) -> (r: u32)
    ensures
        bits_set(final(dst)@) == bits_set(a@).difference(bits_set(b@)),
        r == bits_set(final(dst)@).len(),
{
    let mut c: u32 = 0;
    let mut i: usize = 0;
    while i < BITMAP_WORDS
        invariant
            i <= BITMAP_WORDS,
            c == ones_upto(dst@, i as int),
            c <= 64 * i,
            forall|k: int| 0 <= k < i ==> dst[k] == a[k] & !b[k],
        decreases BITMAP_WORDS - i,
    {
        let ghost before = dst@;
        dst[i] = a[i] & !b[i];
        proof {
            lemma_ones_upto_eq(before, dst@, i as int);
            lemma_ones_bound(dst[i as int]);
        }
        c = c + dst[i].count_ones();
        i = i + 1;
    }
    assert forall|x: u16| #[trigger]
        has_bit(dst@, x) == bits_set(a@).difference(bits_set(b@)).contains(x) by {
        lemma_wbit_ops(a[x as int / 64], b[x as int / 64], x as int % 64);
    }
    assert(bits_set(dst@) =~= bits_set(a@).difference(bits_set(b@)));
    proof {
        lemma_bits_set(dst@);
    }
    c
}

// --- points and runs -----------------------------------------------------------

/// Set one value.
pub fn set_value(dst: &mut Bitmap, v: u16)
    ensures
        bits_set(final(dst)@) == bits_set(old(dst)@).insert(v),
{
    let w: usize = v as usize / 64;
    let m: u64 = 1u64 << (v as u64 % 64);
    dst[w] = dst[w] | m;
    assert forall|x: u16| #[trigger]
        has_bit(dst@, x) == bits_set(old(dst)@).insert(v).contains(x) by {
        if x as int / 64 == w {
            lemma_wbit_ops(old(dst)[w as int], m, x as int % 64);
            lemma_wbit_masks(v as int % 64, x as int % 64);
        }
    }
    assert(bits_set(dst@) =~= bits_set(old(dst)@).insert(v));
}

/// Clear one value.
pub fn clear_value(dst: &mut Bitmap, v: u16)
    ensures
        bits_set(final(dst)@) == bits_set(old(dst)@).remove(v),
{
    let w: usize = v as usize / 64;
    let m: u64 = 1u64 << (v as u64 % 64);
    dst[w] = dst[w] & !m;
    assert forall|x: u16| #[trigger]
        has_bit(dst@, x) == bits_set(old(dst)@).remove(v).contains(x) by {
        if x as int / 64 == w {
            lemma_wbit_ops(old(dst)[w as int], m, x as int % 64);
            lemma_wbit_masks(v as int % 64, x as int % 64);
        }
    }
    assert(bits_set(dst@) =~= bits_set(old(dst)@).remove(v));
}

/// Whether `v` is in the bitmap.
pub fn test_value(b: &Bitmap, v: u16) -> (r: bool)
    ensures
        r == bits_set(b@).contains(v),
{
    (b[v as usize / 64] >> (v as u64 % 64)) & 1 == 1
}

/// Set every value of `vals`.
pub fn set_values(dst: &mut Bitmap, vals: &[u16])
    ensures
        bits_set(final(dst)@) == bits_set(old(dst)@).union(vals@.to_set()),
{
    let mut i: usize = 0;
    while i < vals.len()
        invariant
            i <= vals.len(),
            bits_set(dst@) == bits_set(old(dst)@).union(vals@.take(i as int).to_set()),
        decreases vals.len() - i,
    {
        set_value(dst, vals[i]);
        assert(vals@.take(i + 1) =~= vals@.take(i as int).push(vals[i as int]));
        proof {
            lemma_push_to_set(vals@.take(i as int), vals[i as int]);
        }
        assert(bits_set(dst@) =~= bits_set(old(dst)@).union(vals@.take(i + 1).to_set()));
        i = i + 1;
    }
    assert(vals@.take(i as int) =~= vals@);
}

/// Clear every value of `vals`.
pub fn clear_values(dst: &mut Bitmap, vals: &[u16])
    ensures
        bits_set(final(dst)@) == bits_set(old(dst)@).difference(vals@.to_set()),
{
    let mut i: usize = 0;
    while i < vals.len()
        invariant
            i <= vals.len(),
            bits_set(dst@) == bits_set(old(dst)@).difference(vals@.take(i as int).to_set()),
        decreases vals.len() - i,
    {
        clear_value(dst, vals[i]);
        assert(vals@.take(i + 1) =~= vals@.take(i as int).push(vals[i as int]));
        proof {
            lemma_push_to_set(vals@.take(i as int), vals[i as int]);
        }
        assert(bits_set(dst@) =~= bits_set(old(dst)@).difference(vals@.take(i + 1).to_set()));
        i = i + 1;
    }
    assert(vals@.take(i as int) =~= vals@);
}

/// Set every value of `runs`, which may come in any order and overlap.
pub fn set_runs(dst: &mut Bitmap, runs: &[Run])
    requires
        forall|i: int| 0 <= i < runs.len() ==> (#[trigger] runs[i]).wf(),
    ensures
        bits_set(final(dst)@) == bits_set(old(dst)@).union(runs_set(runs@)),
{
    let mut i: usize = 0;
    while i < runs.len()
        invariant
            i <= runs.len(),
            forall|i: int| 0 <= i < runs.len() ==> (#[trigger] runs[i]).wf(),
            bits_set(dst@) == bits_set(old(dst)@).union(runs_set(runs@.take(i as int))),
        decreases runs.len() - i,
    {
        let r: Run = runs[i];
        fill(dst, r.start, r.end(), true);
        proof {
            lemma_runs_set_push(runs@.take(i as int), r);
            assert(runs@.take(i + 1) =~= runs@.take(i as int).push(r));
            assert(bits_set(dst@) =~= bits_set(old(dst)@).union(runs_set(runs@.take(i + 1))));
        }
        i = i + 1;
    }
    assert(runs@.take(i as int) =~= runs@);
}

/// Clear every value of `runs`, which may come in any order and overlap.
pub fn clear_runs(dst: &mut Bitmap, runs: &[Run])
    requires
        forall|i: int| 0 <= i < runs.len() ==> (#[trigger] runs[i]).wf(),
    ensures
        bits_set(final(dst)@) == bits_set(old(dst)@).difference(runs_set(runs@)),
{
    let mut i: usize = 0;
    while i < runs.len()
        invariant
            i <= runs.len(),
            forall|i: int| 0 <= i < runs.len() ==> (#[trigger] runs[i]).wf(),
            bits_set(dst@) == bits_set(old(dst)@).difference(runs_set(runs@.take(i as int))),
        decreases runs.len() - i,
    {
        let r: Run = runs[i];
        fill(dst, r.start, r.end(), false);
        proof {
            lemma_runs_set_push(runs@.take(i as int), r);
            assert(runs@.take(i + 1) =~= runs@.take(i as int).push(r));
            assert(bits_set(dst@) =~= bits_set(old(dst)@).difference(runs_set(runs@.take(i + 1))));
        }
        i = i + 1;
    }
    assert(runs@.take(i as int) =~= runs@);
}

/// Word `w` after the range `[lo, hi]` was set or cleared in it.
spec fn filled(before: u64, after: u64, w: int, lo: int, hi: int, set: bool) -> bool {
    forall|i: int|
        0 <= i < 64 ==> #[trigger] wbit(after, i) == (if lo <= 64 * w + i <= hi {
            set
        } else {
            wbit(before, i)
        })
}

proof fn lemma_filled(before: u64, m: u64, w: int, lo: int, hi: int)
    requires
        forall|i: int| 0 <= i < 64 ==> #[trigger] wbit(m, i) == (lo <= 64 * w + i <= hi),
    ensures
        filled(before, before | m, w, lo, hi, true),
        filled(before, before & !m, w, lo, hi, false),
{
    assert forall|i: int| 0 <= i < 64 implies #[trigger] wbit(before | m, i) == (if lo <= 64 * w + i
        <= hi {
        true
    } else {
        wbit(before, i)
    }) by {
        lemma_wbit_ops(before, m, i);
        assert(wbit(m, i) == (lo <= 64 * w + i <= hi));
    }
    assert forall|i: int| 0 <= i < 64 implies #[trigger] wbit(before & !m, i) == (if lo <= 64 * w
        + i <= hi {
        false
    } else {
        wbit(before, i)
    }) by {
        lemma_wbit_ops(before, m, i);
        assert(wbit(m, i) == (lo <= 64 * w + i <= hi));
    }
}

/// Set (or clear) the inclusive range `[lo, hi]` through word masks.
pub fn fill(dst: &mut Bitmap, lo: u16, hi: u16, set: bool)
    requires
        lo <= hi,
    ensures
        forall|x: u16| #[trigger]
            bits_set(final(dst)@).contains(x) == (if lo <= x <= hi {
                set
            } else {
                bits_set(old(dst)@).contains(x)
            }),
{
    let wl: usize = lo as usize / 64;
    let wh: usize = hi as usize / 64;
    let lo_mask: u64 = u64::MAX << (lo as u64 % 64);
    let hi_mask: u64 = u64::MAX >> (63 - hi as u64 % 64);
    if wl == wh {
        let m: u64 = lo_mask & hi_mask;
        proof {
            assert forall|i: int| 0 <= i < 64 implies #[trigger] wbit(m, i) == (lo <= 64 * wl + i
                <= hi) by {
                lemma_wbit_ops(lo_mask, hi_mask, i);
                lemma_wbit_masks(lo as int % 64, i);
                lemma_wbit_masks(hi as int % 64, i);
            }
            lemma_filled(dst[wl as int], m, wl as int, lo as int, hi as int);
        }
        if set {
            dst[wl] = dst[wl] | m;
        } else {
            dst[wl] = dst[wl] & !m;
        }
    } else {
        proof {
            assert forall|i: int| 0 <= i < 64 implies #[trigger] wbit(lo_mask, i) == (lo <= 64 * wl
                + i <= hi) by {
                lemma_wbit_masks(lo as int % 64, i);
            }
            lemma_filled(dst[wl as int], lo_mask, wl as int, lo as int, hi as int);
            assert forall|i: int| 0 <= i < 64 implies #[trigger] wbit(hi_mask, i) == (lo <= 64 * wh
                + i <= hi) by {
                lemma_wbit_masks(hi as int % 64, i);
            }
            lemma_filled(dst[wh as int], hi_mask, wh as int, lo as int, hi as int);
        }
        if set {
            dst[wl] = dst[wl] | lo_mask;
            dst[wh] = dst[wh] | hi_mask;
        } else {
            dst[wl] = dst[wl] & !lo_mask;
            dst[wh] = dst[wh] & !hi_mask;
        }
        let full: u64 = if set {
            u64::MAX
        } else {
            0
        };
        let mut w: usize = wl + 1;
        while w < wh
            invariant
                wl < w <= wh < BITMAP_WORDS,
                wl == lo as int / 64,
                wh == hi as int / 64,
                full == (if set {
                    u64::MAX
                } else {
                    0
                }),
                forall|k: int|
                    0 <= k < BITMAP_WORDS && (k < wl || k > wh || w <= k < wh) ==> dst[k] == old(dst)[k],
                forall|k: int| wl < k < w ==> dst[k] == full,
                filled(old(dst)[wl as int], dst[wl as int], wl as int, lo as int, hi as int, set),
                filled(old(dst)[wh as int], dst[wh as int], wh as int, lo as int, hi as int, set),
            decreases wh - w,
        {
            dst[w] = full;
            w = w + 1;
        }
    }
    assert forall|x: u16| #[trigger]
        bits_set(dst@).contains(x) == (if lo <= x <= hi {
            set
        } else {
            bits_set(old(dst)@).contains(x)
        }) by {
        let k = x as int / 64;
        let i = x as int % 64;
        lemma_wbit_masks(0, i);
        assert(wbit(dst[k], i) == has_bit(dst@, x));
        assert(wbit(old(dst)[k], i) == has_bit(old(dst)@, x));
    }
}

pub proof fn lemma_push_to_set(s: Seq<u16>, v: u16)
    ensures
        s.push(v).to_set() == s.to_set().insert(v),
{
    assert forall|x: u16| s.push(v).to_set().contains(x) == s.to_set().insert(v).contains(x) by {
        if s.contains(x) {
            let i = choose|i: int| 0 <= i < s.len() && s[i] == x;
            assert(s.push(v)[i] == x);
        }
        if x == v {
            assert(s.push(v)[s.len() as int] == v);
        }
        if s.push(v).contains(x) && x != v {
            let i = choose|i: int| 0 <= i < s.push(v).len() && s.push(v)[i] == x;
            assert(s[i] == x);
        }
    }
    assert(s.push(v).to_set() =~= s.to_set().insert(v));
}

proof fn lemma_runs_set_push(s: Seq<Run>, r: Run)
    ensures
        forall|x: u16| #[trigger]
            runs_set(s.push(r)).contains(x) == (runs_set(s).contains(x) || r.has(x)),
{
    assert forall|x: u16| #[trigger]
        runs_set(s.push(r)).contains(x) == (runs_set(s).contains(x) || r.has(x)) by {
        let t = s.push(r);
        if runs_set(s).contains(x) {
            let i = choose|i: int| 0 <= i < s.len() && (#[trigger] s[i]).has(x);
            assert(t[i].has(x));
        }
        if r.has(x) {
            assert(t[s.len() as int].has(x));
        }
        if runs_set(t).contains(x) && !r.has(x) {
            let i = choose|i: int| 0 <= i < t.len() && (#[trigger] t[i]).has(x);
            assert(s[i].has(x));
        }
    }
}

// --- extraction ----------------------------------------------------------------

/// No values between `k` and `m`: the listings below them are the same.
proof fn lemma_bits_seq_gap(b: Seq<u64>, k: int, m: int)
    requires
        0 <= k <= m <= 65536,
        forall|x: u16| k <= x < m ==> !has_bit(b, x),
    ensures
        bits_seq(b, m) == bits_seq(b, k),
    decreases m - k,
{
    if k < m {
        lemma_bits_seq_gap(b, k, m - 1);
        assert(!has_bit(b, (m - 1) as u16));
    }
}

proof fn lemma_bits_seq_mono(b: Seq<u64>, k: int, m: int)
    requires
        0 <= k <= m,
    ensures
        bits_seq(b, k).len() <= bits_seq(b, m).len(),
    decreases m - k,
{
    if k < m {
        lemma_bits_seq_mono(b, k, m - 1);
    }
}

/// One step of extracting word `w`: `bits` is what is left of it from bit `j` on.
proof fn lemma_word_step(b: Seq<u64>, w: int, j: int, bits: u64)
    requires
        0 <= w < 1024,
        0 <= j <= 64,
        bits != 0,
        forall|i: int| 0 <= i < 64 ==> #[trigger] wbit(bits, i) == (i >= j && wbit(b[w], i)),
    ensures
        ({
            let t = vstd::std_specs::bits::u64_trailing_zeros(bits) as int;
            &&& t < 64
            &&& forall|i: int|
                0 <= i < 64 ==> #[trigger] wbit(bits & ((bits - 1) as u64), i) == (i >= t + 1 && wbit(
                    b[w],
                    i,
                ))
            &&& bits_seq(b, 64 * w + t + 1) == bits_seq(b, 64 * w + j).push((64 * w + t) as u16)
            &&& bits & ((bits - 1) as u64) < bits
        }),
{
    let t = vstd::std_specs::bits::u64_trailing_zeros(bits) as int;
    lemma_wbit_lowest(bits, 0);
    assert(wbit(bits, t));
    assert forall|x: u16| 64 * w + j <= x < 64 * w + t implies !has_bit(b, x) by {
        lemma_wbit_lowest(bits, x as int % 64);
        assert(x as int / 64 == w);
        assert(wbit(bits, x as int % 64) == (x as int % 64 >= j && wbit(b[w], x as int % 64)));
    }
    lemma_bits_seq_gap(b, 64 * w + j, 64 * w + t);
    assert forall|i: int| 0 <= i < 64 implies #[trigger] wbit(bits & ((bits - 1) as u64), i) == (i >= t
        + 1 && wbit(b[w], i)) by {
        lemma_wbit_lowest(bits, i);
        assert(wbit(bits, i) == (i >= j && wbit(b[w], i)));
    }
    let x = (64 * w + t) as u16;
    assert(x as int / 64 == w && x as int % 64 == t);
    assert(has_bit(b, x));
    assert(bits & ((bits - 1) as u64) < bits) by (bit_vector)
        requires
            bits != 0,
    ;
}

/// Nothing is left of word `w` from bit `j` on.
proof fn lemma_word_end(b: Seq<u64>, w: int, j: int)
    requires
        0 <= w < 1024,
        0 <= j <= 64,
        forall|i: int| 0 <= i < 64 ==> #[trigger] wbit(0, i) == (i >= j && wbit(b[w], i)),
    ensures
        bits_seq(b, 64 * w + 64) == bits_seq(b, 64 * w + j),
{
    assert forall|x: u16| 64 * w + j <= x < 64 * w + 64 implies !has_bit(b, x) by {
        lemma_wbit_masks(0, x as int % 64);
        assert(x as int / 64 == w);
        assert(wbit(0, x as int % 64) == (x as int % 64 >= j && wbit(b[w], x as int % 64)));
    }
    lemma_bits_seq_gap(b, 64 * w + j, 64 * w + 64);
}

/// Append the values of one word, ascending, to `out`.
fn push_word(b: &Bitmap, w: usize, out: &mut Vec<u16>)
    requires
        w < BITMAP_WORDS,
    ensures
        exists|p: Seq<u16>|
            final(out)@ == old(out)@ + p && #[trigger] (bits_seq(b@, 64 * w) + p) == bits_seq(
                b@,
                64 * w + 64,
            ),
{
    let mut bits: u64 = b[w];
    let ghost mut p: Seq<u16> = Seq::empty();
    let ghost mut j: int = 0;
    assert(bits_seq(b@, 64 * w) + p =~= bits_seq(b@, 64 * w));
    assert(old(out)@ + p =~= old(out)@);
    while bits != 0
        invariant
            w < BITMAP_WORDS,
            0 <= j <= 64,
            forall|i: int| 0 <= i < 64 ==> #[trigger] wbit(bits, i) == (i >= j && wbit(b[w as int], i)),
            out@ == old(out)@ + p,
            bits_seq(b@, 64 * w) + p == bits_seq(b@, 64 * w + j),
        decreases bits,
    {
        let tz: u32 = bits.trailing_zeros();
        let v: u16 = (w * 64) as u16 + tz as u16;
        proof {
            lemma_word_step(b@, w as int, j, bits);
            j = tz + 1;
            assert(bits_seq(b@, 64 * w) + p.push(v) =~= (bits_seq(b@, 64 * w) + p).push(v));
            assert(old(out)@ + p.push(v) =~= (old(out)@ + p).push(v));
            p = p.push(v);
        }
        out.push(v);
        bits = bits & (bits - 1);
    }
    proof {
        lemma_word_end(b@, w as int, j);
    }
}

/// Write the values of one word, ascending, into `out` from position `k`.
fn write_word(b: &Bitmap, w: usize, out: &mut [u16], k: usize) -> (r: usize)
    requires
        w < BITMAP_WORDS,
        k == bits_seq(b@, 64 * w).len(),
        bits_seq(b@, 64 * w + 64).len() <= old(out).len(),
        old(out)@.take(k as int) == bits_seq(b@, 64 * w),
    ensures
        r == bits_seq(b@, 64 * w + 64).len(),
        final(out).len() == old(out).len(),
        final(out)@.take(r as int) == bits_seq(b@, 64 * w + 64),
        forall|i: int| r <= i < old(out).len() ==> final(out)[i] == old(out)[i],
{
    let mut bits: u64 = b[w];
    let mut n: usize = k;
    let ghost mut j: int = 0;
    proof {
        lemma_bits_seq_mono(b@, 64 * w, 64 * w + 64);
    }
    while bits != 0
        invariant
            w < BITMAP_WORDS,
            0 <= j <= 64,
            forall|i: int| 0 <= i < 64 ==> #[trigger] wbit(bits, i) == (i >= j && wbit(b[w as int], i)),
            n == bits_seq(b@, 64 * w + j).len(),
            n <= out.len() == old(out).len(),
            bits_seq(b@, 64 * w + 64).len() <= out.len(),
            out@.take(n as int) == bits_seq(b@, 64 * w + j),
            forall|i: int| n <= i < old(out).len() ==> out[i] == old(out)[i],
        decreases bits,
    {
        let tz: u32 = bits.trailing_zeros();
        let v: u16 = (w * 64) as u16 + tz as u16;
        proof {
            lemma_word_step(b@, w as int, j, bits);
            lemma_bits_seq_mono(b@, 64 * w + tz + 1, 64 * w + 64);
            j = tz + 1;
        }
        let ghost before = out@;
        out[n] = v;
        assert(out@.take(n + 1) =~= before.take(n as int).push(v));
        n = n + 1;
        bits = bits & (bits - 1);
    }
    proof {
        lemma_word_end(b@, w as int, j);
    }
    n
}

/// Extract the values into `out` in ascending order; returns their number.
pub fn to_array(b: &Bitmap, out: &mut [u16]) -> (r: usize)
    requires
        bits_set(b@).len() <= old(out).len(),
    ensures
        r == bits_set(b@).len(),
        final(out).len() == old(out).len(),
        asc16(final(out)@.take(r as int)),
        final(out)@.take(r as int).to_set() == bits_set(b@),
        forall|i: int| r <= i < old(out).len() ==> final(out)[i] == old(out)[i],
{
    let mut n: usize = 0;
    let mut w: usize = 0;
    proof {
        lemma_bits_set(b@);
        lemma_ones_upto(b@, 1024);
    }
    assert(out@.take(0) =~= Seq::<u16>::empty());
    while w < BITMAP_WORDS
        invariant
            w <= BITMAP_WORDS,
            n == bits_seq(b@, 64 * w).len(),
            bits_seq(b@, 65536).len() <= old(out).len(),
            n <= out.len() == old(out).len(),
            out@.take(n as int) == bits_seq(b@, 64 * w),
            forall|i: int| n <= i < old(out).len() ==> out[i] == old(out)[i],
        decreases BITMAP_WORDS - w,
    {
        proof {
            lemma_bits_seq_mono(b@, 64 * w, 64 * w + 64);
            lemma_bits_seq_mono(b@, 64 * w + 64, 65536);
        }
        n = write_word(b, w, out, n);
        w = w + 1;
    }
    n
}

/// Append the values, ascending, to `out`. Groups of eight empty words are
/// skipped in one check.
pub fn push_values(b: &Bitmap, out: &mut Vec<u16>)
    ensures
        final(out)@ == old(out)@ + bits_seq(b@, 65536),
{
    let mut w: usize = 0;
    assert(old(out)@ + bits_seq(b@, 0) =~= old(out)@);
    while w < BITMAP_WORDS
        invariant
            w <= BITMAP_WORDS,
            w % 8 == 0,
            out@ == old(out)@ + bits_seq(b@, 64 * w),
        decreases BITMAP_WORDS - w,
    {
        if group_empty(b, w) {
            proof {
                lemma_bits_seq_gap(b@, 64 * w, 64 * (w + 8));
            }
            w = w + 8;
        } else {
            let end: usize = w + 8;
            while w < end
                invariant
                    w <= end <= BITMAP_WORDS,
                    out@ == old(out)@ + bits_seq(b@, 64 * w),
                decreases end - w,
            {
                let ghost before = out@;
                push_word(b, w, out);
                proof {
                    let p = choose|p: Seq<u16>|
                        out@ == before + p && #[trigger] (bits_seq(b@, 64 * w) + p) == bits_seq(
                            b@,
                            64 * w + 64,
                        );
                    assert(old(out)@ + bits_seq(b@, 64 * w) + p =~= old(out)@ + (bits_seq(b@, 64 * w)
                        + p));
                }
                w = w + 1;
            }
        }
    }
}

/// Whether the eight words from `w` on are all empty.
fn group_empty(b: &Bitmap, w: usize) -> (r: bool)
    requires
        w + 8 <= BITMAP_WORDS,
    ensures
        r <==> forall|x: u16| 64 * w <= x < 64 * (w + 8) ==> !has_bit(b@, x),
{
    let mut i: usize = w;
    while i < w + 8
        invariant
            w <= i <= w + 8 <= BITMAP_WORDS,
            forall|k: int| w <= k < i ==> b[k] == 0,
        decreases w + 8 - i,
    {
        if b[i] != 0 {
            proof {
                lemma_wbit_lowest(b[i as int], 0);
                let low = vstd::std_specs::bits::u64_trailing_zeros(b[i as int]) as int;
                let x = (64 * i + low) as u16;
                assert(x as int / 64 == i && x as int % 64 == low);
                assert(has_bit(b@, x));
            }
            return false;
        }
        i = i + 1;
    }
    assert forall|x: u16| 64 * w <= x < 64 * (w + 8) implies !has_bit(b@, x) by {
        lemma_wbit_masks(0, x as int % 64);
        assert(w <= x as int / 64 < w + 8);
    }
    true
}

/// Smallest value of a non-empty bitmap.
pub fn first_value(b: &Bitmap) -> (r: u16)
    requires
        bits_set(b@).len() > 0,
    ensures
        bits_set(b@).contains(r),
        forall|x: u16| bits_set(b@).contains(x) ==> r <= x,
{
    let mut w: usize = 0;
    while w < BITMAP_WORDS
        invariant
            w <= BITMAP_WORDS,
            forall|k: int| 0 <= k < w ==> b[k] == 0,
        decreases BITMAP_WORDS - w,
    {
        let word: u64 = b[w];
        if word != 0 {
            let tz: u32 = word.trailing_zeros();
            proof {
                lemma_wbit_lowest(word, 0);
                assert forall|x: u16| has_bit(b@, x) implies 64 * w + tz <= x by {
                    let k = x as int / 64;
                    lemma_wbit_masks(0, x as int % 64);
                    if k == w {
                        lemma_wbit_lowest(word, x as int % 64);
                    }
                }
                let x = (64 * w + tz) as u16;
                assert(x as int / 64 == w && x as int % 64 == tz);
                assert(has_bit(b@, x));
            }
            return (w * 64) as u16 + tz as u16;
        }
        w = w + 1;
    }
    proof {
        assert forall|x: u16| !bits_set(b@).contains(x) by {
            lemma_wbit_masks(0, x as int % 64);
        }
        assert(bits_set(b@) =~= Set::<u16>::empty());
    }
    0
}

/// Highest set bit of a word.
proof fn lemma_wbit_highest(w: u64, i: int)
    requires
        w != 0,
        0 <= i < 64,
    ensures
        0 <= vstd::std_specs::bits::u64_leading_zeros(w) < 64,
        wbit(w, 63 - vstd::std_specs::bits::u64_leading_zeros(w)),
        wbit(w, i) ==> i <= 63 - vstd::std_specs::bits::u64_leading_zeros(w),
{
    vstd::std_specs::bits::axiom_u64_leading_zeros(w);
    let z = vstd::std_specs::bits::u64_leading_zeros(w) as u64;
    let k = i as u64;
    let h = (63 - z) as u64;
    assert((w >> h) & 1 != 0 ==> (w >> h) & 1 == 1) by (bit_vector);
    if i > h {
        assert((w >> k) & 1 == 0);
    }
}

/// Largest value of a non-empty bitmap.
pub fn last_value(b: &Bitmap) -> (r: u16)
    requires
        bits_set(b@).len() > 0,
    ensures
        bits_set(b@).contains(r),
        forall|x: u16| bits_set(b@).contains(x) ==> x <= r,
{
    let mut w: usize = BITMAP_WORDS;
    while w > 0
        invariant
            w <= BITMAP_WORDS,
            forall|k: int| w <= k < BITMAP_WORDS ==> b[k] == 0,
        decreases w,
    {
        w = w - 1;
        let word: u64 = b[w];
        if word != 0 {
            let lz: u32 = word.leading_zeros();
            proof {
                lemma_wbit_highest(word, 0);
                assert forall|x: u16| has_bit(b@, x) implies x <= 64 * w + 63 - lz by {
                    let k = x as int / 64;
                    lemma_wbit_masks(0, x as int % 64);
                    if k == w {
                        lemma_wbit_highest(word, x as int % 64);
                    }
                }
                let x = (64 * w + 63 - lz) as u16;
                assert(x as int / 64 == w && x as int % 64 == 63 - lz);
                assert(has_bit(b@, x));
            }
            return (w * 64) as u16 + (63 - lz as u16);
        }
    }
    proof {
        assert forall|x: u16| !bits_set(b@).contains(x) by {
            lemma_wbit_masks(0, x as int % 64);
        }
        assert(bits_set(b@) =~= Set::<u16>::empty());
    }
    0
}

} // verus!
