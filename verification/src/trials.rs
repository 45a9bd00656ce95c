//! Alternatives to the kernels, kept to be measured against them.
use vstd::prelude::*;

use crate::arrays::{
    done, lemma_done_emit, lemma_done_end, lemma_done_room, lemma_done_skip, lemma_done_start,
    nondesc,
};
use crate::container::Bitmap;
use crate::format::BITMAP_WORDS;
use crate::model::lists;
use crate::words::{bits_set, lemma_wbit_zero, ones, ones_below, wbit};

verus! {

// --- one-pass union of many arrays ----------------------------------------------------------

/// The values of some input.
pub open spec fn some_input(inputs: Seq<&[u16]>) -> Set<u16> {
    Set::new(|x: u16| exists|i: int| 0 <= i < inputs.len() && (#[trigger] inputs[i])@.contains(x))
}

/// Values left of the first `k` inputs.
spec fn left(inputs: Seq<&[u16]>, pos: Seq<usize>, k: int) -> int
    decreases k,
{
    if k <= 0 {
        0
    } else {
        left(inputs, pos, k - 1) + (inputs[k - 1]@.len() - pos[k - 1])
    }
}

proof fn lemma_left(inputs: Seq<&[u16]>, p: Seq<usize>, q: Seq<usize>, k: int)
    requires
        0 <= k <= inputs.len(),
        p.len() == inputs.len(),
        q.len() == inputs.len(),
        forall|i: int| 0 <= i < k ==> #[trigger] p[i] <= #[trigger] q[i] <= inputs[i]@.len(),
    ensures
        0 <= left(inputs, q, k) <= left(inputs, p, k),
        (exists|i: int| 0 <= i < k && #[trigger] p[i] < q[i]) ==> left(inputs, q, k) < left(
            inputs,
            p,
            k,
        ),
    decreases k,
{
    if k > 0 {
        lemma_left(inputs, p, q, k - 1);
        assert(p[k - 1] <= q[k - 1] <= inputs[k - 1]@.len());
        if exists|i: int| 0 <= i < k && #[trigger] p[i] < q[i] {
            let i = choose|i: int| 0 <= i < k && #[trigger] p[i] < q[i];
            if i < k - 1 {
                assert(p[i] < q[i]);
            }
        }
    }
}

/// Each cursor stands where the values below `bound` end, but for repeats of the last one.
spec fn cut_at(inputs: Seq<&[u16]>, pos: Seq<usize>, bound: int) -> bool {
    &&& pos.len() == inputs.len()
    &&& forall|i: int| 0 <= i < inputs.len() ==> #[trigger] pos[i] <= inputs[i]@.len()
    &&& forall|i: int, p: int|
        0 <= i < inputs.len() && 0 <= p < pos[i] ==> #[trigger] inputs[i]@[p] < bound
    &&& forall|i: int, p: int|
        0 <= i < inputs.len() && pos[i] <= p < inputs[i]@.len() ==> #[trigger] inputs[i]@[p] >= bound
            - 1
}

/// Smallest value at a cursor, or the end of the value space.
fn smallest(inputs: &[&[u16]], pos: &Vec<usize>) -> (r: u32)
    requires
        pos.len() == inputs@.len(),
        forall|i: int| 0 <= i < inputs@.len() ==> nondesc((#[trigger] inputs@[i])@),
        forall|i: int| 0 <= i < inputs@.len() ==> #[trigger] pos@[i] <= inputs@[i]@.len(),
    ensures
        r <= 65536,
        forall|i: int, p: int|
            0 <= i < inputs@.len() && pos@[i] <= p < inputs@[i]@.len() ==> r
                <= #[trigger] inputs@[i]@[p],
        r < 65536 ==> exists|i: int|
            0 <= i < inputs@.len() && #[trigger] pos@[i] < inputs@[i]@.len() && inputs@[i]@[pos@[i] as int]
                == r,
{
    let mut best: u32 = 65536;
    let mut k: usize = 0;
    while k < inputs.len()
        invariant
            k <= inputs@.len(),
            pos.len() == inputs@.len(),
            forall|i: int| 0 <= i < inputs@.len() ==> nondesc((#[trigger] inputs@[i])@),
            forall|i: int| 0 <= i < inputs@.len() ==> #[trigger] pos@[i] <= inputs@[i]@.len(),
            best <= 65536,
            forall|i: int, p: int|
                0 <= i < k && pos@[i] <= p < inputs@[i]@.len() ==> best <= #[trigger] inputs@[i]@[p],
            best < 65536 ==> exists|i: int|
                0 <= i < k && #[trigger] pos@[i] < inputs@[i]@.len() && inputs@[i]@[pos@[i] as int]
                    == best,
        decreases inputs@.len() - k,
    {
        let c: &[u16] = inputs[k];
        let p: usize = pos[k];
        proof {
            assert(nondesc(inputs@[k as int]@));
            assert(pos@[k as int] <= inputs@[k as int]@.len());
        }
        if p < c.len() && (c[p] as u32) < best {
            best = c[p] as u32;
            assert(pos@[k as int] < inputs@[k as int]@.len());
        }
        k = k + 1;
    }
    best
}

/// Step past `best` at each cursor that stands on it.
fn step_past(inputs: &[&[u16]], pos: &mut Vec<usize>, best: u16)
    requires
        old(pos).len() == inputs@.len(),
        forall|i: int| 0 <= i < inputs@.len() ==> #[trigger] old(pos)@[i] <= inputs@[i]@.len(),
    ensures
        final(pos).len() == inputs@.len(),
        forall|i: int|
            0 <= i < inputs@.len() ==> #[trigger] final(pos)@[i] == old(pos)@[i] + (if old(pos)@[i]
                < inputs@[i]@.len() && inputs@[i]@[old(pos)@[i] as int] == best {
                1int
            } else {
                0
            }),
{
    let ghost p0 = pos@;
    let mut k: usize = 0;
    while k < inputs.len()
        invariant
            k <= inputs@.len(),
            pos.len() == inputs@.len(),
            p0 == old(pos)@,
            forall|i: int| 0 <= i < inputs@.len() ==> #[trigger] p0[i] <= inputs@[i]@.len(),
            forall|i: int| k <= i < inputs@.len() ==> #[trigger] pos@[i] == p0[i],
            forall|i: int|
                0 <= i < k ==> #[trigger] pos@[i] == p0[i] + (if p0[i] < inputs@[i]@.len()
                    && inputs@[i]@[p0[i] as int] == best {
                    1int
                } else {
                    0
                }),
        decreases inputs@.len() - k,
    {
        let c: &[u16] = inputs[k];
        let p: usize = pos[k];
        assert(pos@[k as int] == p0[k as int]);
        if p < c.len() && c[p] == best {
            pos.set(k, p + 1);
        }
        k = k + 1;
    }
}

/// Union of ascending arrays in one pass with one cursor each. Writes it to the front of
/// `out`, ascending, and returns its size. Repeated values within an input are taken once.
pub fn union_kway(inputs: &[&[u16]], out: &mut [u16]) -> (r: usize)
    requires
        forall|i: int| 0 <= i < inputs@.len() ==> nondesc((#[trigger] inputs@[i])@),
        some_input(inputs@).len() <= old(out)@.len(),
    ensures
        final(out)@.len() == old(out)@.len(),
        lists(final(out)@, r as int, some_input(inputs@)),
{
    let ghost t = some_input(inputs@);
    let mut pos: Vec<usize> = vec![0; inputs.len()];
    let mut n: usize = 0;
    // Values up to this one are out; 65536 while there are none.
    let mut last: u32 = 65536;
    let ghost mut bound: int = 0;
    proof {
        lemma_done_start(out@, t);
    }
    loop
        invariant
            t == some_input(inputs@),
            forall|i: int| 0 <= i < inputs@.len() ==> nondesc((#[trigger] inputs@[i])@),
            t.len() <= out@.len(),
            out@.len() == old(out)@.len(),
            cut_at(inputs@, pos@, bound),
            done(out@, n as int, t, bound),
            0 <= bound <= 65536,
            bound == if last == 65536 {
                0
            } else {
                last + 1
            },
        decreases left(inputs@, pos@, inputs@.len() as int),
    {
        let ghost p0 = pos@;
        let best: u32 = smallest(inputs, &pos);
        if best == 65536 {
            proof {
                assert forall|x: u16| #[trigger] t.contains(x) implies x < bound by {
                    let i = choose|i: int|
                        0 <= i < inputs@.len() && (#[trigger] inputs@[i])@.contains(x);
                    let p = choose|p: int| 0 <= p < inputs@[i]@.len() && inputs@[i]@[p] == x;
                    assert(pos@[i] <= inputs@[i]@.len());
                    if p >= pos@[i] {
                        assert(best <= inputs@[i]@[p]);
                    } else {
                        assert(inputs@[i]@[p] < bound);
                    }
                }
                lemma_done_skip(out@, n as int, t, bound, 65536);
                lemma_done_end(out@, n as int, t);
            }
            return n;
        }
        let v: u16 = best as u16;
        step_past(inputs, &mut pos, v);
        proof {
            let i = choose|i: int|
                0 <= i < inputs@.len() && #[trigger] p0[i] < inputs@[i]@.len()
                    && inputs@[i]@[p0[i] as int] == best;
            assert(inputs@[i]@.contains(v));
            assert(t.contains(v));
            assert(p0[i] < pos@[i]);
            assert forall|i: int| 0 <= i < inputs@.len() implies #[trigger] p0[i]
                <= #[trigger] pos@[i] <= inputs@[i]@.len() by {}
            lemma_left(inputs@, p0, pos@, inputs@.len() as int);
            assert forall|j: int, p: int| 0 <= j < inputs@.len() && 0 <= p < pos@[j] implies
                #[trigger] inputs@[j]@[p] < best + 1 by {
                if p < p0[j] {
                    assert(inputs@[j]@[p] < bound);
                    assert(bound - 1 <= inputs@[i]@[p0[i] as int]);
                }
            }
            assert forall|j: int, p: int|
                0 <= j < inputs@.len() && pos@[j] <= p < inputs@[j]@.len() implies
                #[trigger] inputs@[j]@[p] >= best by {
                assert(p0[j] <= p);
            }
            assert(bound - 1 <= best) by {
                assert(inputs@[i]@[p0[i] as int] >= bound - 1);
            }
            if last != best {
                assert forall|x: u16| bound <= x < v implies !(#[trigger] t.contains(x)) by {
                    if t.contains(x) {
                        let j = choose|j: int|
                            0 <= j < inputs@.len() && (#[trigger] inputs@[j])@.contains(x);
                        let p = choose|p: int| 0 <= p < inputs@[j]@.len() && inputs@[j]@[p] == x;
                        if p < p0[j] {
                            assert(inputs@[j]@[p] < bound);
                        } else {
                            assert(best <= inputs@[j]@[p]);
                        }
                    }
                }
                lemma_done_room(out@, n as int, t, bound, v);
                lemma_done_emit(out@, n as int, t, bound, v);
            }
        }
        if last != best {
            out[n] = v;
            n = n + 1;
            last = best;
        }
        proof {
            bound = best + 1;
        }
    }
}

// --- bitmap to array, byte by byte ------------------------------------------------------------

/// The set bits of a byte below `k`, ascending.
pub open spec fn low_bits(b: u64, k: int) -> Seq<u16>
    decreases k,
{
    if k <= 0 {
        Seq::empty()
    } else if wbit(b, k - 1) {
        low_bits(b, k - 1).push((k - 1) as u16)
    } else {
        low_bits(b, k - 1)
    }
}

/// The row of a byte: its set bits in front.
pub open spec fn row_ok(row: Seq<u16>, b: u64) -> bool {
    &&& row.len() == 8
    &&& row.take(ones_below(b, 8) as int) == low_bits(b, 8)
    &&& forall|j: int| 0 <= j < 8 ==> #[trigger] row[j] < 8
}

proof fn lemma_low_bits(b: u64, k: int)
    requires
        0 <= k <= 8,
    ensures
        low_bits(b, k).len() == ones_below(b, k),
        ones_below(b, k) <= k,
    decreases k,
{
    if k > 0 {
        lemma_low_bits(b, k - 1);
    }
}

/// Fewer bits are a prefix of more.
proof fn lemma_prefix(b: u64, j: int, k: int)
    requires
        0 <= j <= k <= 8,
    ensures
        low_bits(b, k).take(ones_below(b, j) as int) == low_bits(b, j),
        ones_below(b, j) <= ones_below(b, k),
    decreases k - j,
{
    lemma_low_bits(b, j);
    lemma_low_bits(b, k);
    if j < k {
        lemma_prefix(b, j, k - 1);
        lemma_low_bits(b, k - 1);
        assert(low_bits(b, k).take(ones_below(b, j) as int) =~= low_bits(b, k - 1).take(
            ones_below(b, j) as int,
        ));
    } else {
        assert(low_bits(b, k).take(ones_below(b, j) as int) =~= low_bits(b, k));
    }
}

/// A byte has no ones past its eight bits.
proof fn lemma_byte_ones(b: u64, k: int)
    requires
        b < 256,
        8 <= k <= 64,
    ensures
        ones_below(b, k) == ones_below(b, 8),
    decreases k,
{
    if k > 8 {
        lemma_byte_ones(b, k - 1);
        let i = (k - 1) as u64;
        assert((b >> i) & 1 == 0) by (bit_vector)
            requires
                b < 256,
                8 <= i < 64,
        ;
    }
}

/// The row of one byte.
fn byte_row(b: u64) -> (r: [u16; 8])
    ensures
        row_ok(r@, b),
{
    let mut row: [u16; 8] = [0; 8];
    let mut k: usize = 0;
    let mut bit: u64 = 0;
    assert(row@.take(0) =~= low_bits(b, 0));
    while bit < 8
        invariant
            bit <= 8,
            k == ones_below(b, bit as int),
            k <= bit,
            row@.take(k as int) == low_bits(b, bit as int),
            forall|j: int| 0 <= j < 8 ==> #[trigger] row@[j] < 8,
        decreases 8 - bit,
    {
        if (b >> bit) & 1 == 1 {
            let ghost before = row@;
            row[k] = bit as u16;
            proof {
                assert(wbit(b, bit as int));
                assert(row@.take(k + 1) =~= before.take(k as int).push(bit as u16));
            }
            k = k + 1;
        }
        bit = bit + 1;
    }
    row
}

/// The rows of all bytes.
pub fn byte_table() -> (r: Vec<[u16; 8]>)
    ensures
        r.len() == 256,
        forall|b: int| 0 <= b < 256 ==> row_ok((#[trigger] r[b])@, b as u64),
{
    let mut out: Vec<[u16; 8]> = Vec::with_capacity(256);
    let mut b: u64 = 0;
    while b < 256
        invariant
            b <= 256,
            out.len() == b,
            forall|i: int| 0 <= i < b ==> row_ok((#[trigger] out[i])@, i as u64),
        decreases 256 - b,
    {
        out.push(byte_row(b));
        b = b + 1;
    }
    out
}

/// The row of a byte, put behind the values below the byte's first, lists the values below
/// its last.
proof fn lemma_row(
    before: Seq<u16>,
    after: Seq<u16>,
    n: int,
    row: Seq<u16>,
    bits: u64,
    t: Set<u16>,
    base: int,
    k: int,
)
    requires
        0 <= k <= 8,
        0 <= base <= 65528,
        done(before, n, t, base),
        row_ok(row, bits),
        n + 8 <= after.len(),
        after.len() == before.len(),
        forall|i: int| 0 <= i < n ==> #[trigger] after[i] == before[i],
        forall|j: int| 0 <= j < 8 ==> #[trigger] after[n + j] == row[j] + base,
        forall|j: int|
            0 <= j < 8 ==> (#[trigger] wbit(bits, j) <==> t.contains((base + j) as u16)),
    ensures
        done(after, n + ones_below(bits, k), t, base + k),
    decreases k,
{
    if k == 0 {
        assert(after.take(n) =~= before.take(n));
    } else {
        lemma_row(before, after, n, row, bits, t, base, k - 1);
        let (c, v) = (ones_below(bits, k - 1) as int, (base + k - 1) as u16);
        lemma_prefix(bits, k - 1, 8);
        lemma_prefix(bits, k, 8);
        lemma_low_bits(bits, k - 1);
        lemma_low_bits(bits, k);
        lemma_low_bits(bits, 8);
        assert(wbit(bits, k - 1) <==> t.contains(v));
        if wbit(bits, k - 1) {
            assert(low_bits(bits, k)[c] == k - 1);
            assert(low_bits(bits, 8).take(c + 1)[c] == low_bits(bits, k)[c]);
            assert(row.take(ones_below(bits, 8) as int)[c] == k - 1);
            assert(after[n + c] == row[c] + base);
            lemma_done_emit(after, n + c, t, base + k - 1, v);
            assert(after.update(n + c, v) =~= after);
        } else {
            lemma_done_skip(after, n + c, t, base + k - 1, base + k);
        }
    }
}

/// Write the row of a byte.
fn put_row(row: &[u16; 8], off: u16, out: &mut [u16], n: usize)
    requires
        forall|j: int| 0 <= j < 8 ==> #[trigger] row@[j] < 8,
        off <= 65528,
        n + 8 <= old(out)@.len(),
    ensures
        final(out)@.len() == old(out)@.len(),
        forall|i: int| 0 <= i < n ==> #[trigger] final(out)@[i] == old(out)@[i],
        forall|j: int| 0 <= j < 8 ==> #[trigger] final(out)@[n + j] == row@[j] + off,
{
    let end: usize = out.len();
    let mut j: usize = 0;
    while j < 8
        invariant
            j <= 8,
            n + 8 <= end,
            forall|i: int| 0 <= i < 8 ==> #[trigger] row@[i] < 8,
            off <= 65528,
            n + 8 <= out@.len(),
            out@.len() == old(out)@.len(),
            forall|i: int| 0 <= i < n ==> #[trigger] out@[i] == old(out)@[i],
            forall|i: int| 0 <= i < j ==> #[trigger] out@[n + i] == row@[i] + off,
        decreases 8 - j,
    {
        assert(row@[j as int] < 8);
        out[n + j] = row[j] + off;
        j = j + 1;
    }
}

/// The values of a bitmap, ascending, by table lookup of each byte. Writes whole rows, so
/// `out` needs seven entries past the last value.
pub fn extract_bytes(table: &Vec<[u16; 8]>, b: &Bitmap, out: &mut [u16]) -> (r: usize)
    requires
        table.len() == 256,
        forall|i: int| 0 <= i < 256 ==> row_ok((#[trigger] table[i])@, i as u64),
        bits_set(b@).len() + 7 <= old(out)@.len(),
    ensures
        final(out)@.len() == old(out)@.len(),
        lists(final(out)@, r as int, bits_set(b@)),
{
    let ghost t = bits_set(b@);
    let end: usize = out.len();
    let mut n: usize = 0;
    let mut w: usize = 0;
    proof {
        lemma_done_start(out@, t);
    }
    while w < BITMAP_WORDS
        invariant
            w <= BITMAP_WORDS,
            table.len() == 256,
            forall|i: int| 0 <= i < 256 ==> row_ok((#[trigger] table[i])@, i as u64),
            t == bits_set(b@),
            t.len() + 7 <= end,
            out@.len() == end,
            end == old(out)@.len(),
            done(out@, n as int, t, w * 64),
        decreases BITMAP_WORDS - w,
    {
        let word: u64 = b[w];
        if word == 0 {
            proof {
                assert forall|x: u16| #[trigger] t.contains(x) implies (x < w * 64 <==> x < (w + 1)
                    * 64) by {
                    if w * 64 <= x < (w + 1) * 64 {
                        lemma_wbit_zero(x as int % 64);
                        assert(x as int / 64 == w);
                    }
                }
                lemma_done_skip(out@, n as int, t, w * 64, (w + 1) * 64);
            }
        } else {
            let mut k: u64 = 0;
            while k < 8
                invariant
                    k <= 8,
                    w < BITMAP_WORDS,
                    word == b@[w as int],
                    table.len() == 256,
                    forall|i: int| 0 <= i < 256 ==> row_ok((#[trigger] table[i])@, i as u64),
                    t == bits_set(b@),
                    t.len() + 7 <= end,
                    out@.len() == end,
                    end == old(out)@.len(),
                    done(out@, n as int, t, w * 64 + k * 8),
                decreases 8 - k,
            {
                let bits: u64 = (word >> (k * 8)) & 0xFF;
                let ghost base = w * 64 + k * 8;
                proof {
                    let s = (k * 8) as u64;
                    assert(bits < 256) by (bit_vector)
                        requires
                            bits == (word >> s) & 0xFF,
                    ;
                    assert forall|j: int| 0 <= j < 8 implies (#[trigger] wbit(bits, j)
                        <==> t.contains((base + j) as u16)) by {
                        let i = j as u64;
                        let si = (s + i) as u64;
                        assert((bits >> i) & 1 == (word >> si) & 1) by (bit_vector)
                            requires
                                bits == (word >> s) & 0xFF,
                                i < 8,
                                s <= 56,
                                si == s + i,
                        ;
                        let x = (base + j) as u16;
                        assert(x as int / 64 == w && x as int % 64 == k * 8 + j);
                    }
                }
                if bits == 0 {
                    proof {
                        assert forall|x: u16| #[trigger] t.contains(x) implies (x < base <==> x
                            < base + 8) by {
                            if base <= x < base + 8 {
                                lemma_wbit_zero(x - base);
                                assert(wbit(bits, x - base) <==> t.contains(
                                    (base + (x - base)) as u16,
                                ));
                            }
                        }
                        lemma_done_skip(out@, n as int, t, base, base + 8);
                    }
                } else {
                    proof {
                        lemma_some_bit(bits);
                        let j = choose|j: int| 0 <= j < 8 && #[trigger] wbit(bits, j);
                        lemma_done_room(out@, n as int, t, base, (base + j) as u16);
                        assert(row_ok(table[bits as int]@, bits));
                        lemma_byte_ones(bits, 64);
                        lemma_low_bits(bits, 8);
                    }
                    let ghost before = out@;
                    put_row(&table[bits as usize], (w * 64) as u16 + (k * 8) as u16, out, n);
                    proof {
                        lemma_row(
                            before,
                            out@,
                            n as int,
                            table[bits as int]@,
                            bits,
                            t,
                            base,
                            8,
                        );
                    }
                    n = n + bits.count_ones() as usize;
                }
                k = k + 1;
            }
        }
        w = w + 1;
    }
    proof {
        lemma_done_end(out@, n as int, t);
    }
    n
}

/// A byte other than 0 has a bit.
proof fn lemma_some_bit(b: u64)
    requires
        0 < b < 256,
    ensures
        exists|j: int| 0 <= j < 8 && #[trigger] wbit(b, j),
{
    assert((b >> 0u64) & 1 == 1 || (b >> 1u64) & 1 == 1 || (b >> 2u64) & 1 == 1 || (b >> 3u64) & 1
        == 1 || (b >> 4u64) & 1 == 1 || (b >> 5u64) & 1 == 1 || (b >> 6u64) & 1 == 1 || (b >> 7u64)
        & 1 == 1) by (bit_vector)
        requires
            0 < b < 256,
    ;
    assert(wbit(b, 0) || wbit(b, 1) || wbit(b, 2) || wbit(b, 3) || wbit(b, 4) || wbit(b, 5) || wbit(
        b,
        6,
    ) || wbit(b, 7));
}

/// The row of a byte lists the positions of its set bits, ascending, and no others.
pub proof fn law_row(row: Seq<u16>, b: u64, j: int)
    requires
        row_ok(row, b),
        0 <= j < 8,
    ensures
        wbit(b, j) <==> exists|i: int| 0 <= i < ones_below(b, 8) && #[trigger] row[i] == j,
        forall|i: int, k: int| 0 <= i < k < ones_below(b, 8) ==> row[i] < row[k],
{
    let l = low_bits(b, 8);
    lemma_low_bits(b, 8);
    lemma_low_order(b, 8);
    let t = row.take(ones_below(b, 8) as int);
    assert(t == l);
    assert forall|i: int| 0 <= i < l.len() implies #[trigger] row[i] == l[i] by {
        assert(t[i] == l[i]);
    }
    assert(l.contains(j as u16) <==> wbit(b, j));
    if wbit(b, j) {
        let i = choose|i: int| 0 <= i < l.len() && l[i] == j as u16;
        assert(row[i] == j);
    }
    if exists|i: int| 0 <= i < ones_below(b, 8) && #[trigger] row[i] == j {
        let i = choose|i: int| 0 <= i < ones_below(b, 8) && #[trigger] row[i] == j;
        assert(l[i] == j as u16);
    }
}

proof fn lemma_low_order(b: u64, k: int)
    requires
        0 <= k <= 8,
    ensures
        forall|i: int, j: int|
            0 <= i < j < low_bits(b, k).len() ==> low_bits(b, k)[i] < low_bits(b, k)[j],
        forall|i: int| 0 <= i < low_bits(b, k).len() ==> #[trigger] low_bits(b, k)[i] < k,
        forall|x: u16| #[trigger] low_bits(b, k).contains(x) <==> x < k && wbit(b, x as int),
    decreases k,
{
    if k > 0 {
        lemma_low_order(b, k - 1);
        let (l, m) = (low_bits(b, k), low_bits(b, k - 1));
        assert forall|x: u16| #[trigger] l.contains(x) <==> x < k && wbit(b, x as int) by {
            if l.contains(x) {
                let i = choose|i: int| 0 <= i < l.len() && l[i] == x;
                if i < m.len() {
                    assert(m[i] == x);
                    assert(m.contains(x));
                }
            }
            if x < k && wbit(b, x as int) {
                if x < k - 1 {
                    assert(m.contains(x));
                    let i = choose|i: int| 0 <= i < m.len() && m[i] == x;
                    assert(l[i] == x);
                } else {
                    assert(l[l.len() - 1] == x);
                }
            }
        }
    }
}

} // verus!
